use split_config::error::SplitError;
use split_config::kubeconfig::{is_kubeconfig, split_into_contexts, Kubeconfig};
use split_config::yaml::Yaml;

fn s(text: &str) -> Yaml {
    Yaml::Str(text.to_string())
}

fn mapping(pairs: Vec<(&str, Yaml)>) -> Yaml {
    Yaml::Mapping(pairs.into_iter().map(|(k, v)| (k.to_string(), v)).collect())
}

fn named_entry(name: &str, extra: &str) -> Yaml {
    mapping(vec![("name", s(name)), ("data", s(extra))])
}

fn context_entry(name: &str, cluster: &str, user: &str, namespace: &str) -> Yaml {
    mapping(vec![
        ("name", s(name)),
        (
            "context",
            mapping(vec![
                ("cluster", s(cluster)),
                ("user", s(user)),
                ("namespace", s(namespace)),
            ]),
        ),
    ])
}

fn source(clusters: Vec<Yaml>, contexts: Vec<Yaml>, users: Vec<Yaml>) -> Yaml {
    mapping(vec![
        ("apiVersion", s("v1")),
        ("kind", s("Config")),
        ("clusters", Yaml::List(clusters)),
        ("contexts", Yaml::List(contexts)),
        ("users", Yaml::List(users)),
    ])
}

fn lookup<'a>(doc: &'a Yaml, key: &str) -> Option<&'a Yaml> {
    match doc {
        Yaml::Mapping(entries) => entries.iter().find(|(k, _)| k == key).map(|(_, v)| v),
        _ => None,
    }
}

#[test]
fn recognizes_a_proper_configuration() {
    let doc = source(vec![], vec![], vec![]);
    assert!(is_kubeconfig(&doc));
}

#[test]
fn recognition_is_idempotent() {
    let doc = source(vec![], vec![], vec![]);
    let first = is_kubeconfig(&doc);
    let second = is_kubeconfig(&doc);
    let third = is_kubeconfig(&doc);
    assert_eq!(first, second);
    assert_eq!(second, third);
}

#[test]
fn missing_kind_is_never_recognized() {
    let doc = mapping(vec![("apiVersion", s("v1"))]);
    assert!(!is_kubeconfig(&doc));
}

#[test]
fn missing_api_version_is_rejected() {
    let doc = mapping(vec![("kind", s("Config"))]);
    assert!(!is_kubeconfig(&doc));
}

#[test]
fn wrong_marker_values_are_rejected() {
    let doc = mapping(vec![("apiVersion", s("v2")), ("kind", s("Config"))]);
    assert!(!is_kubeconfig(&doc));
    let doc = mapping(vec![("apiVersion", s("v1")), ("kind", s("Secret"))]);
    assert!(!is_kubeconfig(&doc));
}

#[test]
fn non_mapping_is_not_recognized() {
    assert!(!is_kubeconfig(&s("v1")));
    assert!(!is_kubeconfig(&Yaml::List(vec![])));
    assert!(!is_kubeconfig(&Yaml::Null));
}

#[test]
fn splits_one_context_into_one_output() {
    let doc = source(
        vec![named_entry("prod", "c1")],
        vec![context_entry("ctx", "prod", "alice", "default")],
        vec![named_entry("alice", "u1")],
    );
    let batch = split_into_contexts(&doc, "CLUSTER-USER-NAMESPACE.kubeconfig").unwrap();
    assert_eq!(batch.len(), 1);
    assert_eq!(batch[0].0, "prod-alice-default.kubeconfig");
    let out = batch[0].1.to_document();
    assert!(is_kubeconfig(&out));
    let contexts = match lookup(&out, "contexts").unwrap() {
        Yaml::List(items) => items,
        other => panic!("contexts is not a list: {other:?}"),
    };
    assert_eq!(contexts.len(), 1);
    assert!(contexts[0].deep_eq(&context_entry("ctx", "prod", "alice", "default")));
    let clusters = match lookup(&out, "clusters").unwrap() {
        Yaml::List(items) => items,
        other => panic!("clusters is not a list: {other:?}"),
    };
    assert_eq!(clusters.len(), 1);
    assert!(clusters[0].deep_eq(&named_entry("prod", "c1")));
    let users = match lookup(&out, "users").unwrap() {
        Yaml::List(items) => items,
        other => panic!("users is not a list: {other:?}"),
    };
    assert_eq!(users.len(), 1);
    assert!(users[0].deep_eq(&named_entry("alice", "u1")));
    assert!(lookup(&out, "current-context").unwrap().deep_eq(&s("ctx")));
}

#[test]
fn referential_completeness_on_two_contexts() {
    let doc = source(
        vec![named_entry("east", "c1"), named_entry("west", "c2")],
        vec![
            context_entry("a", "east", "alice", "ns1"),
            context_entry("b", "west", "bob", "ns2"),
        ],
        vec![named_entry("alice", "u1"), named_entry("bob", "u2")],
    );
    let batch = split_into_contexts(&doc, "CLUSTER-USER-NAMESPACE.kubeconfig").unwrap();
    assert_eq!(batch.len(), 2);
    for (_, cfg) in &batch {
        let out = cfg.to_document();
        let contexts = match lookup(&out, "contexts").unwrap() {
            Yaml::List(items) => items.clone(),
            other => panic!("contexts is not a list: {other:?}"),
        };
        assert_eq!(contexts.len(), 1);
        let body = lookup(&contexts[0], "context").unwrap().clone();
        let cluster_name = lookup(&body, "cluster").unwrap().clone();
        let user_name = lookup(&body, "user").unwrap().clone();
        let clusters = match lookup(&out, "clusters").unwrap() {
            Yaml::List(items) => items.clone(),
            other => panic!("clusters is not a list: {other:?}"),
        };
        assert_eq!(clusters.len(), 1);
        assert!(lookup(&clusters[0], "name").unwrap().deep_eq(&cluster_name));
        let users = match lookup(&out, "users").unwrap() {
            Yaml::List(items) => items.clone(),
            other => panic!("users is not a list: {other:?}"),
        };
        assert_eq!(users.len(), 1);
        assert!(lookup(&users[0], "name").unwrap().deep_eq(&user_name));
    }
}

#[test]
fn round_trip_naming() {
    let doc = source(
        vec![named_entry("prod/east", "c1")],
        vec![context_entry("ctx", "prod/east", "alice", "default")],
        vec![named_entry("alice", "u1")],
    );
    let batch = split_into_contexts(&doc, "CLUSTER-USER-NAMESPACE.kubeconfig").unwrap();
    assert_eq!(batch.len(), 1);
    assert_eq!(batch[0].0, "prod_east-alice-default.kubeconfig");
}

#[test]
fn identifiers_do_not_rescan_substituted_names() {
    let doc = source(
        vec![named_entry("USER", "c1")],
        vec![context_entry("ctx", "USER", "u", "n")],
        vec![named_entry("u", "u1")],
    );
    let batch = split_into_contexts(&doc, "CLUSTER").unwrap();
    assert_eq!(batch.len(), 1);
    assert_eq!(batch[0].0, "USER");
}

#[test]
fn empty_contexts_give_an_empty_batch() {
    let doc = source(
        vec![named_entry("prod", "c1")],
        vec![],
        vec![named_entry("alice", "u1")],
    );
    let batch = split_into_contexts(&doc, "CLUSTER.kubeconfig").unwrap();
    assert!(batch.is_empty());
}

#[test]
fn dangling_cluster_reference_aborts() {
    let doc = source(
        vec![named_entry("prod", "c1")],
        vec![context_entry("ctx", "staging", "alice", "default")],
        vec![named_entry("alice", "u1")],
    );
    let err = split_into_contexts(&doc, "CLUSTER.kubeconfig").unwrap_err();
    assert_eq!(err, SplitError::DanglingReference("staging".to_string()));
}

#[test]
fn dangling_user_reference_aborts() {
    let doc = source(
        vec![named_entry("prod", "c1")],
        vec![context_entry("ctx", "prod", "mallory", "default")],
        vec![named_entry("alice", "u1")],
    );
    let err = split_into_contexts(&doc, "CLUSTER.kubeconfig").unwrap_err();
    assert_eq!(err, SplitError::DanglingReference("mallory".to_string()));
}

#[test]
fn duplicate_identifiers_abort_wholly() {
    let doc = source(
        vec![named_entry("east", "c1"), named_entry("west", "c2")],
        vec![
            context_entry("a", "east", "alice", "ns1"),
            context_entry("b", "west", "bob", "ns2"),
        ],
        vec![named_entry("alice", "u1"), named_entry("bob", "u2")],
    );
    let err = split_into_contexts(&doc, "all.kubeconfig").unwrap_err();
    assert_eq!(err, SplitError::DuplicateIdentifier("all.kubeconfig".to_string()));
}

#[test]
fn non_mapping_source_is_a_type_mismatch() {
    let err = split_into_contexts(&s("nope"), "CLUSTER").unwrap_err();
    assert_eq!(err, SplitError::TypeMismatch("document".to_string()));
}

#[test]
fn missing_contexts_list_is_reported() {
    let doc = mapping(vec![
        ("apiVersion", s("v1")),
        ("kind", s("Config")),
        ("clusters", Yaml::List(vec![])),
        ("users", Yaml::List(vec![])),
    ]);
    let err = split_into_contexts(&doc, "CLUSTER").unwrap_err();
    assert_eq!(err, SplitError::MissingField("contexts".to_string()));
}

#[test]
fn missing_clusters_list_is_reported() {
    let doc = mapping(vec![
        ("apiVersion", s("v1")),
        ("kind", s("Config")),
        ("contexts", Yaml::List(vec![])),
        ("users", Yaml::List(vec![])),
    ]);
    let err = split_into_contexts(&doc, "CLUSTER").unwrap_err();
    assert_eq!(err, SplitError::MissingField("clusters".to_string()));
}

#[test]
fn contexts_of_the_wrong_shape_are_reported() {
    let doc = mapping(vec![
        ("apiVersion", s("v1")),
        ("kind", s("Config")),
        ("contexts", s("oops")),
        ("clusters", Yaml::List(vec![])),
        ("users", Yaml::List(vec![])),
    ]);
    let err = split_into_contexts(&doc, "CLUSTER").unwrap_err();
    assert_eq!(err, SplitError::TypeMismatch("contexts".to_string()));
}

#[test]
fn malformed_context_entry_is_reported() {
    let doc = source(
        vec![named_entry("prod", "c1")],
        vec![mapping(vec![("name", s("ctx"))])],
        vec![named_entry("alice", "u1")],
    );
    let err = split_into_contexts(&doc, "CLUSTER").unwrap_err();
    assert_eq!(err, SplitError::MalformedContext);
}

#[test]
fn non_mapping_context_entry_is_reported() {
    let doc = source(
        vec![named_entry("prod", "c1")],
        vec![s("just-a-string")],
        vec![named_entry("alice", "u1")],
    );
    let err = split_into_contexts(&doc, "CLUSTER").unwrap_err();
    assert_eq!(err, SplitError::MalformedContext);
}

#[test]
fn missing_namespace_is_reported() {
    let ctx = mapping(vec![
        ("name", s("ctx")),
        (
            "context",
            mapping(vec![("cluster", s("prod")), ("user", s("alice"))]),
        ),
    ]);
    let doc = source(
        vec![named_entry("prod", "c1")],
        vec![ctx],
        vec![named_entry("alice", "u1")],
    );
    let err = split_into_contexts(&doc, "CLUSTER").unwrap_err();
    assert_eq!(err, SplitError::MissingField("namespace".to_string()));
}

#[test]
fn non_string_cluster_reference_is_reported() {
    let ctx = mapping(vec![
        ("name", s("ctx")),
        (
            "context",
            mapping(vec![
                ("cluster", Yaml::Int(7)),
                ("user", s("alice")),
                ("namespace", s("ns")),
            ]),
        ),
    ]);
    let doc = source(
        vec![named_entry("prod", "c1")],
        vec![ctx],
        vec![named_entry("alice", "u1")],
    );
    let err = split_into_contexts(&doc, "CLUSTER").unwrap_err();
    assert_eq!(err, SplitError::TypeMismatch("cluster".to_string()));
}

#[test]
fn non_mapping_list_entry_is_reported() {
    let doc = source(
        vec![s("not-an-entry")],
        vec![context_entry("ctx", "prod", "alice", "ns")],
        vec![named_entry("alice", "u1")],
    );
    let err = split_into_contexts(&doc, "CLUSTER").unwrap_err();
    assert_eq!(err, SplitError::TypeMismatch("entry".to_string()));
}

#[test]
fn duplicate_context_is_guarded_against() {
    let mut cfg = Kubeconfig::new();
    let ctx = context_entry("ctx", "prod", "alice", "ns");
    let cluster = named_entry("prod", "c1");
    let user = named_entry("alice", "u1");
    let name = s("ctx");
    assert!(cfg.add_context(&name, &ctx, &cluster, &user, true).is_ok());
    let err = cfg.add_context(&name, &ctx, &cluster, &user, true).unwrap_err();
    assert_eq!(err, SplitError::DuplicateContext);
}

#[test]
fn shared_entries_are_not_duplicated() {
    let mut cfg = Kubeconfig::new();
    let ctx_a = context_entry("a", "prod", "alice", "ns1");
    let ctx_b = context_entry("b", "prod", "alice", "ns2");
    let cluster = named_entry("prod", "c1");
    let user = named_entry("alice", "u1");
    assert!(cfg.add_context(&s("a"), &ctx_a, &cluster, &user, true).is_ok());
    assert!(cfg.add_context(&s("b"), &ctx_b, &cluster, &user, false).is_ok());
    let out = cfg.to_document();
    let clusters = match lookup(&out, "clusters").unwrap() {
        Yaml::List(items) => items.clone(),
        other => panic!("clusters is not a list: {other:?}"),
    };
    assert_eq!(clusters.len(), 1);
    let contexts = match lookup(&out, "contexts").unwrap() {
        Yaml::List(items) => items.clone(),
        other => panic!("contexts is not a list: {other:?}"),
    };
    assert_eq!(contexts.len(), 2);
    assert!(lookup(&out, "current-context").unwrap().deep_eq(&s("a")));
}
