use split_config::error::SplitError;
use split_config::pattern::{derive_identifier, replace_all};
use split_config::yaml::{find_entry, read_list, read_string, Yaml};

fn s(text: &str) -> Yaml {
    Yaml::Str(text.to_string())
}

fn entries(pairs: Vec<(&str, Yaml)>) -> Vec<(String, Yaml)> {
    pairs.into_iter().map(|(k, v)| (k.to_string(), v)).collect()
}

#[test]
fn read_list_returns_the_sequence() {
    let obj = entries(vec![("items", Yaml::List(vec![s("a"), s("b")]))]);
    let list = read_list(&obj, "items").unwrap();
    assert_eq!(list.len(), 2);
    assert!(list[0].deep_eq(&s("a")));
}

#[test]
fn read_list_reports_a_missing_key() {
    let obj = entries(vec![("other", Yaml::Null)]);
    let err = read_list(&obj, "items").unwrap_err();
    assert_eq!(err, SplitError::MissingField("items".to_string()));
}

#[test]
fn read_list_reports_a_wrong_shape() {
    let obj = entries(vec![("items", s("not-a-list"))]);
    let err = read_list(&obj, "items").unwrap_err();
    assert_eq!(err, SplitError::TypeMismatch("items".to_string()));
}

#[test]
fn read_string_returns_the_string() {
    let obj = entries(vec![("k", s("value"))]);
    assert_eq!(read_string(&obj, "k").unwrap(), "value");
}

#[test]
fn read_string_reports_failures() {
    let obj = entries(vec![("k", Yaml::Int(3))]);
    assert_eq!(
        read_string(&obj, "k").unwrap_err(),
        SplitError::TypeMismatch("k".to_string())
    );
    assert_eq!(
        read_string(&obj, "absent").unwrap_err(),
        SplitError::MissingField("absent".to_string())
    );
}

#[test]
fn find_entry_takes_the_first_match() {
    let list = vec![
        Yaml::Mapping(entries(vec![("name", s("a")), ("tag", s("first"))])),
        Yaml::Mapping(entries(vec![("name", s("b"))])),
        Yaml::Mapping(entries(vec![("name", s("a")), ("tag", s("second"))])),
    ];
    let found = find_entry(&list, "a").unwrap().unwrap();
    assert!(found.deep_eq(&list[0]));
}

#[test]
fn find_entry_treats_absence_as_a_valid_outcome() {
    let list = vec![Yaml::Mapping(entries(vec![("name", s("a"))]))];
    assert!(find_entry(&list, "zzz").unwrap().is_none());
}

#[test]
fn find_entry_skips_entries_without_a_usable_name() {
    let list = vec![
        Yaml::Mapping(entries(vec![("tag", s("nameless"))])),
        Yaml::Mapping(entries(vec![("name", Yaml::Int(1))])),
        Yaml::Mapping(entries(vec![("name", s("x"))])),
    ];
    let found = find_entry(&list, "x").unwrap().unwrap();
    assert!(found.deep_eq(&list[2]));
}

#[test]
fn find_entry_rejects_non_mapping_entries() {
    let list = vec![s("oops"), Yaml::Mapping(entries(vec![("name", s("x"))]))];
    let err = find_entry(&list, "x").unwrap_err();
    assert_eq!(err, SplitError::TypeMismatch("entry".to_string()));
}

#[test]
fn deep_eq_distinguishes_scalars_and_structures() {
    assert!(s("a").deep_eq(&s("a")));
    assert!(!s("a").deep_eq(&s("b")));
    assert!(!s("1").deep_eq(&Yaml::Int(1)));
    assert!(Yaml::Null.deep_eq(&Yaml::Null));
    assert!(Yaml::Bool(true).deep_eq(&Yaml::Bool(true)));
    assert!(!Yaml::Bool(true).deep_eq(&Yaml::Bool(false)));
    let m1 = Yaml::Mapping(entries(vec![("a", Yaml::Int(1)), ("b", Yaml::Int(2))]));
    let m2 = Yaml::Mapping(entries(vec![("a", Yaml::Int(1)), ("b", Yaml::Int(2))]));
    let m3 = Yaml::Mapping(entries(vec![("b", Yaml::Int(2)), ("a", Yaml::Int(1))]));
    assert!(m1.deep_eq(&m2));
    assert!(!m1.deep_eq(&m3));
}

#[test]
fn deep_clone_copies_the_whole_tree() {
    let doc = Yaml::Mapping(entries(vec![
        ("list", Yaml::List(vec![Yaml::Int(1), s("two"), Yaml::Null])),
        ("nested", Yaml::Mapping(entries(vec![("k", Yaml::Bool(false))]))),
    ]));
    let copy = doc.deep_clone();
    assert!(copy.deep_eq(&doc));
}

#[test]
fn replace_all_scans_left_to_right_without_rescanning() {
    assert_eq!(replace_all("aaa", "aa", "b"), "ba");
    assert_eq!(replace_all("hello", "l", "LL"), "heLLLLo");
    assert_eq!(replace_all("none here", "xyz", "!"), "none here");
    assert_eq!(replace_all("", "x", "y"), "");
}

#[test]
fn derive_identifier_substitutes_every_token() {
    assert_eq!(
        derive_identifier("CLUSTER-USER-NAMESPACE.kubeconfig", "prod/east", "default", "alice"),
        "prod_east-alice-default.kubeconfig"
    );
    assert_eq!(derive_identifier("fixed.conf", "c", "n", "u"), "fixed.conf");
    assert_eq!(
        derive_identifier("USER-USER", "c", "n", "a/b"),
        "a_b-a_b"
    );
}

#[test]
fn derive_identifier_never_rescans_substituted_values() {
    assert_eq!(derive_identifier("CLUSTER", "USER", "n", "u"), "USER");
    assert_eq!(derive_identifier("USER", "c", "n", "NAMESPACE"), "NAMESPACE");
    assert_eq!(derive_identifier("NAMESPACE", "c", "CLUSTER", "u"), "CLUSTER");
    assert_eq!(
        derive_identifier("USER-CLUSTER", "NAMESPACE", "n", "CLUSTER"),
        "CLUSTER-NAMESPACE"
    );
}
