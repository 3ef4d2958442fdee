//! The document tree: a dynamically typed mapping/sequence/scalar union,
//! together with its mathematical model and typed read accessors.

use vstd::prelude::*;

use crate::error::{ErrorValue, SplitError};

verus! {

/// Mathematical model of a document tree node.
///
/// A mapping is a sequence of key/value pairs in insertion order; lookups
/// take the first pair with a matching key.
#[verifier::ext_equal]
pub enum Value {
    Mapping(Seq<(Seq<char>, Value)>),
    List(Seq<Value>),
    Str(Seq<char>),
    Int(int),
    Bool(bool),
    Real(Seq<char>),
    Null,
}

/// A document tree node: a mapping with string keys, a sequence, or a scalar.
///
/// Scalars other than strings are carried through verbatim and only ever
/// compared for equality; a real number keeps its textual form.
#[derive(Debug)]
pub enum Yaml {
    Mapping(Vec<(String, Yaml)>),
    List(Vec<Yaml>),
    Str(String),
    Int(i64),
    Bool(bool),
    Real(String),
    Null,
}

impl Yaml {
    pub open spec fn view_rec(self) -> Value
        decreases self,
    {
        match self {
            Yaml::Mapping(entries) => Value::Mapping(
                Seq::new(
                    entries@.len(),
                    |i: int|
                        if 0 <= i < entries@.len() {
                            (entries@[i].0@, entries@[i].1.view_rec())
                        } else {
                            arbitrary()
                        },
                ),
            ),
            Yaml::List(items) => Value::List(
                Seq::new(
                    items@.len(),
                    |i: int|
                        if 0 <= i < items@.len() {
                            items@[i].view_rec()
                        } else {
                            arbitrary()
                        },
                ),
            ),
            Yaml::Str(s) => Value::Str(s@),
            Yaml::Int(n) => Value::Int(n as int),
            Yaml::Bool(b) => Value::Bool(b),
            Yaml::Real(s) => Value::Real(s@),
            Yaml::Null => Value::Null,
        }
    }

    /// Deep structural equality of two document trees.
    pub fn deep_eq(&self, other: &Yaml) -> (r: bool)
        ensures
            r == (self@ == other@),
        decreases *self,
    {
        match (self, other) {
            (Yaml::Mapping(ea), Yaml::Mapping(eb)) => {
                proof {
                    lemma_map_view(*ea);
                    lemma_map_view(*eb);
                }
                if ea.len() != eb.len() {
                    proof {
                        assert(entries_view(ea@).len() == ea@.len());
                        assert(entries_view(eb@).len() == eb@.len());
                    }
                    return false;
                }
                let n = ea.len();
                let mut i: usize = 0;
                while i < n
                    invariant
                        n == ea@.len(),
                        n == eb@.len(),
                        i <= n,
                        *self == Yaml::Mapping(*ea),
                        *other == Yaml::Mapping(*eb),
                        self@ == Value::Mapping(entries_view(ea@)),
                        other@ == Value::Mapping(entries_view(eb@)),
                        forall|j: int|
                            0 <= j < i ==> entries_view(ea@)[j] == entries_view(eb@)[j],
                    decreases n - i,
                {
                    proof {
                        assert(entries_view(ea@)[i as int] == (ea@[i as int].0@, ea@[i as int].1@));
                        assert(entries_view(eb@)[i as int] == (eb@[i as int].0@, eb@[i as int].1@));
                    }
                    if !str_eq(ea[i].0.as_str(), eb[i].0.as_str()) {
                        return false;
                    }
                    proof {
                        assert(decreases_to!(*self => (*self)->Mapping_0));
                        assert(decreases_to!(*ea => ea@));
                        assert(decreases_to!(ea@ => ea@[i as int]));
                        assert(decreases_to!(ea@[i as int] => ea@[i as int].1));
                    }
                    if !ea[i].1.deep_eq(&eb[i].1) {
                        return false;
                    }
                    i += 1;
                }
                proof {
                    assert(entries_view(ea@) =~= entries_view(eb@));
                }
                true
            },
            (Yaml::List(ia), Yaml::List(ib)) => {
                proof {
                    lemma_list_view(*ia);
                    lemma_list_view(*ib);
                }
                if ia.len() != ib.len() {
                    proof {
                        assert(items_view(ia@).len() == ia@.len());
                        assert(items_view(ib@).len() == ib@.len());
                    }
                    return false;
                }
                let n = ia.len();
                let mut i: usize = 0;
                while i < n
                    invariant
                        n == ia@.len(),
                        n == ib@.len(),
                        i <= n,
                        *self == Yaml::List(*ia),
                        *other == Yaml::List(*ib),
                        self@ == Value::List(items_view(ia@)),
                        other@ == Value::List(items_view(ib@)),
                        forall|j: int| 0 <= j < i ==> items_view(ia@)[j] == items_view(ib@)[j],
                    decreases n - i,
                {
                    proof {
                        assert(items_view(ia@)[i as int] == ia@[i as int]@);
                        assert(items_view(ib@)[i as int] == ib@[i as int]@);
                        assert(decreases_to!(*self => (*self)->List_0));
                        assert(decreases_to!(*ia => ia@));
                        assert(decreases_to!(ia@ => ia@[i as int]));
                    }
                    if !ia[i].deep_eq(&ib[i]) {
                        return false;
                    }
                    i += 1;
                }
                proof {
                    assert(items_view(ia@) =~= items_view(ib@));
                }
                true
            },
            (Yaml::Str(a), Yaml::Str(b)) => str_eq(a.as_str(), b.as_str()),
            (Yaml::Int(a), Yaml::Int(b)) => *a == *b,
            (Yaml::Bool(a), Yaml::Bool(b)) => *a == *b,
            (Yaml::Real(a), Yaml::Real(b)) => str_eq(a.as_str(), b.as_str()),
            (Yaml::Null, Yaml::Null) => true,
            _ => {
                proof {
                    lemma_view_kind(*self);
                    lemma_view_kind(*other);
                }
                false
            },
        }
    }

    /// A structurally equal copy of a document tree.
    pub fn deep_clone(&self) -> (r: Yaml)
        ensures
            r@ == self@,
        decreases *self,
    {
        match self {
            Yaml::Mapping(entries) => {
                let n = entries.len();
                let mut out: Vec<(String, Yaml)> = Vec::new();
                let mut i: usize = 0;
                while i < n
                    invariant
                        n == entries@.len(),
                        i <= n,
                        out@.len() == i,
                        *self == Yaml::Mapping(*entries),
                        forall|j: int|
                            0 <= j < i ==> entries_view(out@)[j] == entries_view(entries@)[j],
                    decreases n - i,
                {
                    proof {
                        assert(decreases_to!(*self => (*self)->Mapping_0));
                        assert(decreases_to!(*entries => entries@));
                        assert(decreases_to!(entries@ => entries@[i as int]));
                        assert(decreases_to!(entries@[i as int] => entries@[i as int].1));
                    }
                    let k = entries[i].0.clone();
                    let v = entries[i].1.deep_clone();
                    out.push((k, v));
                    i += 1;
                }
                proof {
                    assert(entries_view(out@) =~= entries_view(entries@));
                    lemma_map_view(out);
                    lemma_map_view(*entries);
                }
                Yaml::Mapping(out)
            },
            Yaml::List(items) => {
                let n = items.len();
                let mut out: Vec<Yaml> = Vec::new();
                let mut i: usize = 0;
                while i < n
                    invariant
                        n == items@.len(),
                        i <= n,
                        out@.len() == i,
                        *self == Yaml::List(*items),
                        forall|j: int| 0 <= j < i ==> items_view(out@)[j] == items_view(items@)[j],
                    decreases n - i,
                {
                    proof {
                        assert(decreases_to!(*self => (*self)->List_0));
                        assert(decreases_to!(*items => items@));
                        assert(decreases_to!(items@ => items@[i as int]));
                    }
                    let v = items[i].deep_clone();
                    out.push(v);
                    i += 1;
                }
                proof {
                    assert(items_view(out@) =~= items_view(items@));
                    lemma_list_view(out);
                    lemma_list_view(*items);
                }
                Yaml::List(out)
            },
            Yaml::Str(s) => Yaml::Str(s.clone()),
            Yaml::Int(n) => Yaml::Int(*n),
            Yaml::Bool(b) => Yaml::Bool(*b),
            Yaml::Real(s) => Yaml::Real(s.clone()),
            Yaml::Null => Yaml::Null,
        }
    }
}

impl View for Yaml {
    type V = Value;

    open spec fn view(&self) -> Value {
        self.view_rec()
    }
}

/// The model of a mapping's entry vector.
pub open spec fn entries_view(entries: Seq<(String, Yaml)>) -> Seq<(Seq<char>, Value)> {
    Seq::new(entries.len(), |i: int| (entries[i].0@, entries[i].1@))
}

/// The model of a sequence's item vector.
pub open spec fn items_view(items: Seq<Yaml>) -> Seq<Value> {
    Seq::new(items.len(), |i: int| items[i]@)
}

/// The view of a map node is the view of its entries, pointwise.
pub broadcast proof fn lemma_map_view(entries: Vec<(String, Yaml)>)
    ensures
        (#[trigger] Yaml::Mapping(entries)@) == Value::Mapping(entries_view(entries@)),
{
    let v1 = Yaml::Mapping(entries)@;
    let s1 = v1->Mapping_0;
    let s2 = entries_view(entries@);
    assert(s1.len() == entries@.len());
    assert(s2.len() == entries@.len());
    assert forall|i: int| 0 <= i < s1.len() implies s1[i] == s2[i] by {
        assert(s1[i] == (entries@[i].0@, entries@[i].1.view_rec()));
        assert(s2[i] == (entries@[i].0@, entries@[i].1@));
    }
    assert(s1 =~= s2);
}

/// The view of a list node is the view of its items, pointwise.
pub broadcast proof fn lemma_list_view(items: Vec<Yaml>)
    ensures
        (#[trigger] Yaml::List(items)@) == Value::List(items_view(items@)),
{
    let v1 = Yaml::List(items)@;
    let s1 = v1->List_0;
    let s2 = items_view(items@);
    assert forall|i: int| 0 <= i < s1.len() implies s1[i] == s2[i] by {
        assert(s1[i] == items@[i].view_rec());
        assert(s2[i] == items@[i]@);
    }
    assert(s1 =~= s2);
}

/// A node and its model are always of the same kind.
pub broadcast proof fn lemma_view_kind(y: Yaml)
    ensures
        (#[trigger] y@) is Mapping <==> y is Mapping,
        y@ is List <==> y is List,
        y@ is Str <==> y is Str,
        y@ is Int <==> y is Int,
        y@ is Bool <==> y is Bool,
        y@ is Real <==> y is Real,
        y@ is Null <==> y is Null,
{
}

/// The value at `key` in a mapping: the one of the first pair whose key
/// matches, if any.
pub open spec fn map_get(entries: Seq<(Seq<char>, Value)>, key: Seq<char>) -> Option<Value>
    decreases entries.len(),
{
    if entries.len() == 0 {
        None
    } else if entries[0].0 == key {
        Some(entries[0].1)
    } else {
        map_get(entries.drop_first(), key)
    }
}

/// Character-for-character string comparison.
pub fn str_eq(a: &str, b: &str) -> (r: bool)
    ensures
        r == (a@ == b@),
{
    let an = a.unicode_len();
    let bn = b.unicode_len();
    if an != bn {
        return false;
    }
    let mut i: usize = 0;
    while i < an
        invariant
            an == a@.len(),
            an == b@.len(),
            i <= an,
            forall|j: int| 0 <= j < i ==> a@[j] == b@[j],
        decreases an - i,
    {
        if a.get_char(i) != b.get_char(i) {
            return false;
        }
        i += 1;
    }
    proof {
        assert(a@ =~= b@);
    }
    true
}

/// The value stored under `key`, or `None` if no pair of the mapping
/// carries that key.
pub fn get_entry<'a>(entries: &'a Vec<(String, Yaml)>, key: &str) -> (r: Option<&'a Yaml>)
    ensures
        match r {
            Some(v) => map_get(entries_view(entries@), key@) == Some(v@),
            None => map_get(entries_view(entries@), key@) is None,
        },
{
    let ghost m = entries_view(entries@);
    proof {
        assert(m.skip(0) =~= m);
    }
    let n = entries.len();
    let mut i: usize = 0;
    while i < n
        invariant
            n == entries@.len(),
            i <= n,
            m == entries_view(entries@),
            map_get(m, key@) == map_get(m.skip(i as int), key@),
        decreases n - i,
    {
        proof {
            assert(m.skip(i as int)[0] == m[i as int]);
        }
        if str_eq(entries[i].0.as_str(), key) {
            proof {
                assert(map_get(m.skip(i as int), key@) == Some(m[i as int].1));
            }
            return Some(&entries[i].1);
        }
        proof {
            assert(m.skip(i as int).drop_first() =~= m.skip(i as int + 1));
        }
        i += 1;
    }
    proof {
        assert(m.skip(i as int) =~= Seq::<(Seq<char>, Value)>::empty());
    }
    None
}

/// The sequence stored under `key` in a mapping.
///
/// Fails with `MissingField` when the key is absent and with
/// `TypeMismatch` when the value is not a sequence.
pub fn read_list<'k>(kubeconfig: &'k Vec<(String, Yaml)>, key: &str) -> (r: Result<
    &'k Vec<Yaml>,
    SplitError,
>)
    ensures
        r is Ok <==> map_get(entries_view(kubeconfig@), key@) matches Some(Value::List(_)),
        match r {
            Ok(list) => map_get(entries_view(kubeconfig@), key@) == Some(
                Value::List(items_view(list@)),
            ),
            Err(e) => match map_get(entries_view(kubeconfig@), key@) {
                Some(_) => e@ == ErrorValue::TypeMismatch(key@),
                None => e@ == ErrorValue::MissingField(key@),
            },
        },
{
    match get_entry(kubeconfig, key) {
        None => Err(SplitError::MissingField(key.to_owned())),
        Some(v) => match v {
            Yaml::List(items) => {
                proof {
                    lemma_list_view(*items);
                }
                Ok(items)
            },
            _ => {
                proof {
                    lemma_view_kind(*v);
                }
                Err(SplitError::TypeMismatch(key.to_owned()))
            },
        },
    }
}

/// The string stored under `key` in a mapping.
///
/// Fails with `MissingField` when the key is absent and with
/// `TypeMismatch` when the value is not a string scalar.
pub fn read_string<'h>(obj: &'h Vec<(String, Yaml)>, key: &str) -> (r: Result<&'h str, SplitError>)
    ensures
        r is Ok <==> map_get(entries_view(obj@), key@) matches Some(Value::Str(_)),
        match r {
            Ok(s) => map_get(entries_view(obj@), key@) == Some(Value::Str(s@)),
            Err(e) => match map_get(entries_view(obj@), key@) {
                Some(_) => e@ == ErrorValue::TypeMismatch(key@),
                None => e@ == ErrorValue::MissingField(key@),
            },
        },
{
    match get_entry(obj, key) {
        None => Err(SplitError::MissingField(key.to_owned())),
        Some(v) => match v {
            Yaml::Str(s) => Ok(s.as_str()),
            _ => {
                proof {
                    lemma_view_kind(*v);
                }
                Err(SplitError::TypeMismatch(key.to_owned()))
            },
        },
    }
}

/// The first entry of `list` whose `name` field is the string `name`.
///
/// `Ok(None)` when no entry matches; `Err(())` when some entry at or
/// before the first match is not a mapping.  An entry without a `name`
/// field, or with a non-string one, merely does not match.
pub open spec fn find_named(list: Seq<Value>, name: Seq<char>) -> Result<Option<Value>, ()>
    decreases list.len(),
{
    if list.len() == 0 {
        Ok(None)
    } else {
        match list[0] {
            Value::Mapping(es) => if map_get(es, "name"@) == Some(Value::Str(name)) {
                Ok(Some(list[0]))
            } else {
                find_named(list.drop_first(), name)
            },
            _ => Err(()),
        }
    }
}

/// What a successful search found: a mapping whose `name` field is
/// exactly the string searched for.
pub proof fn lemma_find_named_found(list: Seq<Value>, name: Seq<char>)
    requires
        find_named(list, name) matches Ok(Some(_)),
    ensures
        find_named(list, name)->Ok_0 matches Some(e) && e matches Value::Mapping(es) && map_get(
            es,
            "name"@,
        ) == Some(Value::Str(name)),
    decreases list.len(),
{
    if list.len() > 0 {
        match list[0] {
            Value::Mapping(es) => {
                if map_get(es, "name"@) != Some(Value::Str(name)) {
                    lemma_find_named_found(list.drop_first(), name);
                }
            },
            _ => {
                assert(false);
            },
        }
    }
}

/// Linear search of a list of named entries.
///
/// Absence of a match is a valid outcome, not an error; an entry that is
/// not a mapping is a structural error, surfaced immediately.
pub fn find_entry<'l>(list: &'l Vec<Yaml>, name: &str) -> (r: Result<Option<&'l Yaml>, SplitError>)
    ensures
        match r {
            Ok(Some(e)) => find_named(items_view(list@), name@) == Ok::<_, ()>(Some(e@)),
            Ok(None) => find_named(items_view(list@), name@) == Ok::<Option<Value>, ()>(None),
            Err(e) => find_named(items_view(list@), name@) is Err && e@ == ErrorValue::TypeMismatch(
                "entry"@,
            ),
        },
{
    let ghost l = items_view(list@);
    proof {
        assert(l.skip(0) =~= l);
    }
    let n = list.len();
    let mut i: usize = 0;
    while i < n
        invariant
            n == list@.len(),
            i <= n,
            l == items_view(list@),
            find_named(l, name@) == find_named(l.skip(i as int), name@),
        decreases n - i,
    {
        proof {
            assert(l.skip(i as int)[0] == l[i as int]);
        }
        match &list[i] {
            Yaml::Mapping(es) => {
                proof {
                    lemma_map_view(*es);
                }
                let matches_name = match get_entry(es, "name") {
                    Some(v) => match v {
                        Yaml::Str(s) => str_eq(s.as_str(), name),
                        _ => {
                            proof {
                                lemma_view_kind(*v);
                            }
                            false
                        },
                    },
                    None => false,
                };
                if matches_name {
                    proof {
                        assert(find_named(l.skip(i as int), name@) == Ok::<_, ()>(
                            Some(l[i as int]),
                        ));
                    }
                    return Ok(Some(&list[i]));
                }
                proof {
                    assert(l.skip(i as int).drop_first() =~= l.skip(i as int + 1));
                }
            },
            _ => {
                proof {
                    lemma_view_kind(list@[i as int]);
                }
                return Err(SplitError::TypeMismatch("entry".to_owned()));
            },
        }
        i += 1;
    }
    proof {
        assert(l.skip(i as int) =~= Seq::<Value>::empty());
    }
    Ok(None)
}

} // verus!
