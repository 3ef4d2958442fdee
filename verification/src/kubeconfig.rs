//! Recognition of configuration documents, cross-reference of contexts
//! against cluster and user entries, and the splitting engine.

use vstd::prelude::*;

use crate::error::{ErrorValue, SplitError};
use crate::pattern::{derive_identifier, identifier_value};
use crate::yaml::{
    entries_view, find_entry, find_named, get_entry, items_view, lemma_find_named_found,
    lemma_list_view, lemma_map_view,
    lemma_view_kind, map_get, read_list, read_string, str_eq, Value, Yaml,
};

verus! {

/// Whether a document is recognized as a configuration: a mapping whose
/// `apiVersion` is the string `"v1"` and whose `kind` is `"Config"`.
pub open spec fn recognized(doc: Value) -> bool {
    &&& doc matches Value::Mapping(es)
    &&& map_get(es, "apiVersion"@) == Some(Value::Str("v1"@))
    &&& map_get(es, "kind"@) == Some(Value::Str("Config"@))
}

/// Check if a document is a configuration by looking at `kind` and
/// `apiVersion`.  A document of any other shape is merely not recognized;
/// this is a classification, never an error.
pub fn is_kubeconfig(data: &Yaml) -> (r: bool)
    ensures
        r == recognized(data@),
{
    match data {
        Yaml::Mapping(entries) => {
            proof {
                lemma_map_view(*entries);
            }
            let api_ok = match get_entry(entries, "apiVersion") {
                Some(v) => match v {
                    Yaml::Str(s) => str_eq(s.as_str(), "v1"),
                    _ => {
                        proof {
                            lemma_view_kind(*v);
                        }
                        false
                    },
                },
                None => false,
            };
            if !api_ok {
                return false;
            }
            match get_entry(entries, "kind") {
                Some(v) => match v {
                    Yaml::Str(s) => str_eq(s.as_str(), "Config"),
                    _ => {
                        proof {
                            lemma_view_kind(*v);
                        }
                        false
                    },
                },
                None => false,
            }
        },
        _ => {
            proof {
                lemma_view_kind(*data);
            }
            false
        },
    }
}

/// The decomposition of a context entry into its `name` field and its
/// `context` mapping, when the entry has that shape.
pub open spec fn ctx_parts(ctx: Value) -> Option<(Value, Seq<(Seq<char>, Value)>)> {
    match ctx {
        Value::Mapping(es) => match (map_get(es, "name"@), map_get(es, "context"@)) {
            (Some(name), Some(Value::Mapping(body))) => Some((name, body)),
            _ => None,
        },
        _ => None,
    }
}

/// Splits a context entry into its name and its `context` mapping.
///
/// Fails with `MalformedContext` when the entry is not a mapping, has no
/// `name`, has no `context`, or its `context` is not a mapping.
pub fn read_context<'c>(ctx: &'c Yaml) -> (r: Result<
    (&'c Yaml, &'c Vec<(String, Yaml)>),
    SplitError,
>)
    ensures
        match r {
            Ok(parts) => ctx_parts(ctx@) == Some((parts.0@, entries_view(parts.1@))),
            Err(e) => ctx_parts(ctx@) is None && e@ == ErrorValue::MalformedContext,
        },
{
    match ctx {
        Yaml::Mapping(es) => {
            proof {
                lemma_map_view(*es);
            }
            let name = match get_entry(es, "name") {
                Some(n) => n,
                None => {
                    return Err(SplitError::MalformedContext);
                },
            };
            match get_entry(es, "context") {
                Some(c) => match c {
                    Yaml::Mapping(body) => {
                        proof {
                            lemma_map_view(*body);
                        }
                        Ok((name, body))
                    },
                    _ => {
                        proof {
                            lemma_view_kind(*c);
                        }
                        Err(SplitError::MalformedContext)
                    },
                },
                None => Err(SplitError::MalformedContext),
            }
        },
        _ => {
            proof {
                lemma_view_kind(*ctx);
            }
            Err(SplitError::MalformedContext)
        },
    }
}

/// Whether some element of `s` equals `v`.
pub open spec fn contains_value(s: Seq<Value>, v: Value) -> bool {
    exists|i: int| 0 <= i < s.len() && s[i] == v
}

/// Whether a batch already carries an output under identifier `id`.
pub open spec fn has_ident(batch: Seq<(Seq<char>, Value)>, id: Seq<char>) -> bool {
    exists|i: int| 0 <= i < batch.len() && batch[i].0 == id
}

/// Whether `list` holds an element structurally equal to `v`.
fn list_contains(list: &Vec<Yaml>, v: &Yaml) -> (r: bool)
    ensures
        r == contains_value(items_view(list@), v@),
{
    let n = list.len();
    let mut i: usize = 0;
    while i < n
        invariant
            n == list@.len(),
            i <= n,
            forall|j: int| 0 <= j < i ==> items_view(list@)[j] != v@,
        decreases n - i,
    {
        proof {
            assert(items_view(list@)[i as int] == list@[i as int]@);
        }
        if list[i].deep_eq(v) {
            return true;
        }
        i += 1;
    }
    false
}

/// The mapping that an output configuration document denotes: the fixed
/// `apiVersion`/`kind` markers, the three entry lists, and the current
/// context marker when one is set.
pub open spec fn config_value(
    clusters: Seq<Value>,
    contexts: Seq<Value>,
    users: Seq<Value>,
    current: Option<Value>,
) -> Value {
    Value::Mapping(
        seq![
            ("apiVersion"@, Value::Str("v1"@)),
            ("kind"@, Value::Str("Config"@)),
            ("clusters"@, Value::List(clusters)),
            ("contexts"@, Value::List(contexts)),
            ("users"@, Value::List(users)),
        ] + match current {
            Some(name) => seq![("current-context"@, name)],
            None => Seq::empty(),
        },
    )
}

/// One output configuration document, holding exactly the entries that its
/// context references.
#[derive(Debug)]
pub struct Kubeconfig {
    clusters: Vec<Yaml>,
    contexts: Vec<Yaml>,
    users: Vec<Yaml>,
    current_context: Option<Yaml>,
}

impl Kubeconfig {
    /// The model of the `clusters` list.
    pub closed spec fn clusters_v(self) -> Seq<Value> {
        items_view(self.clusters@)
    }

    /// The model of the `contexts` list.
    pub closed spec fn contexts_v(self) -> Seq<Value> {
        items_view(self.contexts@)
    }

    /// The model of the `users` list.
    pub closed spec fn users_v(self) -> Seq<Value> {
        items_view(self.users@)
    }

    /// The model of the `current-context` marker.
    pub closed spec fn current_v(self) -> Option<Value> {
        match self.current_context {
            Some(n) => Some(n@),
            None => None,
        }
    }

    /// A fresh output document: markers set, all lists empty, no current
    /// context.
    pub fn new() -> (k: Kubeconfig)
        ensures
            k.clusters_v() == Seq::<Value>::empty(),
            k.contexts_v() == Seq::<Value>::empty(),
            k.users_v() == Seq::<Value>::empty(),
            k.current_v() == Option::<Value>::None,
    {
        let k = Kubeconfig {
            clusters: Vec::new(),
            contexts: Vec::new(),
            users: Vec::new(),
            current_context: None,
        };
        proof {
            assert(k.clusters_v() =~= Seq::<Value>::empty());
            assert(k.contexts_v() =~= Seq::<Value>::empty());
            assert(k.users_v() =~= Seq::<Value>::empty());
        }
        k
    }

    /// Adds a context entry together with its resolved cluster and user
    /// entries, optionally marking the context as current.
    ///
    /// The context must not already be present (`DuplicateContext`
    /// otherwise); the cluster and user entries are appended only when no
    /// structurally equal entry is already held.
    pub fn add_context(
        &mut self,
        ctxname: &Yaml,
        ctx: &Yaml,
        cluster: &Yaml,
        user: &Yaml,
        current: bool,
    ) -> (r: Result<(), SplitError>)
        ensures
            r is Err <==> contains_value(old(self).contexts_v(), ctx@),
            match r {
                Ok(()) => {
                    &&& final(self).contexts_v() == old(self).contexts_v().push(ctx@)
                    &&& final(self).clusters_v() == (if contains_value(
                        old(self).clusters_v(),
                        cluster@,
                    ) {
                        old(self).clusters_v()
                    } else {
                        old(self).clusters_v().push(cluster@)
                    })
                    &&& final(self).users_v() == (if contains_value(old(self).users_v(), user@) {
                        old(self).users_v()
                    } else {
                        old(self).users_v().push(user@)
                    })
                    &&& final(self).current_v() == (if current {
                        Some(ctxname@)
                    } else {
                        old(self).current_v()
                    })
                },
                Err(e) => e@ == ErrorValue::DuplicateContext && *final(self) == *old(self),
            },
    {
        if list_contains(&self.contexts, ctx) {
            return Err(SplitError::DuplicateContext);
        }
        self.contexts.push(ctx.deep_clone());
        proof {
            assert(items_view(self.contexts@) =~= items_view(old(self).contexts@).push(ctx@));
        }
        if !list_contains(&self.clusters, cluster) {
            self.clusters.push(cluster.deep_clone());
            proof {
                assert(items_view(self.clusters@) =~= items_view(old(self).clusters@).push(
                    cluster@,
                ));
            }
        }
        if !list_contains(&self.users, user) {
            self.users.push(user.deep_clone());
            proof {
                assert(items_view(self.users@) =~= items_view(old(self).users@).push(user@));
            }
        }
        if current {
            self.current_context = Some(ctxname.deep_clone());
        }
        Ok(())
    }

    /// The assembled output document, as one fresh tree value.
    pub fn to_document(&self) -> (r: Yaml)
        ensures
            r@ == config_value(self.clusters_v(), self.contexts_v(), self.users_v(), self.current_v()),
    {
        let cl = clone_items(&self.clusters);
        let cx = clone_items(&self.contexts);
        let us = clone_items(&self.users);
        proof {
            lemma_list_view(cl);
            lemma_list_view(cx);
            lemma_list_view(us);
        }
        let mut entries: Vec<(String, Yaml)> = Vec::new();
        entries.push((String::from_str("apiVersion"), Yaml::Str(String::from_str("v1"))));
        entries.push((String::from_str("kind"), Yaml::Str(String::from_str("Config"))));
        entries.push((String::from_str("clusters"), Yaml::List(cl)));
        entries.push((String::from_str("contexts"), Yaml::List(cx)));
        entries.push((String::from_str("users"), Yaml::List(us)));
        match &self.current_context {
            Some(name) => {
                entries.push((String::from_str("current-context"), name.deep_clone()));
            },
            None => {},
        }
        proof {
            lemma_map_view(entries);
            let m = entries_view(entries@);
            let cv = config_value(
                self.clusters_v(),
                self.contexts_v(),
                self.users_v(),
                self.current_v(),
            );
            assert(m[0] == ("apiVersion"@, Value::Str("v1"@)));
            assert(m[1] == ("kind"@, Value::Str("Config"@)));
            assert(m[2] == ("clusters"@, Value::List(self.clusters_v())));
            assert(m[3] == ("contexts"@, Value::List(self.contexts_v())));
            assert(m[4] == ("users"@, Value::List(self.users_v())));
            match &self.current_context {
                Some(n) => {
                    assert(m[5] == ("current-context"@, n@));
                },
                None => {},
            }
            assert(m =~= cv->Mapping_0);
        }
        Yaml::Mapping(entries)
    }
}

impl View for Kubeconfig {
    type V = Value;

    open spec fn view(&self) -> Value {
        config_value(self.clusters_v(), self.contexts_v(), self.users_v(), self.current_v())
    }
}

/// The outcome of processing one context entry against the source's
/// cluster and user lists: the output identifier and output document, or
/// the error that aborts the whole split.
pub open spec fn split_ctx(
    ctx: Value,
    clusters: Seq<Value>,
    users: Seq<Value>,
    pattern: Seq<char>,
) -> Result<(Seq<char>, Value), ErrorValue> {
    match ctx_parts(ctx) {
        None => Err(ErrorValue::MalformedContext),
        Some((name, body)) => match map_get(body, "cluster"@) {
            None => Err(ErrorValue::MissingField("cluster"@)),
            Some(Value::Str(cluster_name)) => match find_named(clusters, cluster_name) {
                Err(_) => Err(ErrorValue::TypeMismatch("entry"@)),
                Ok(None) => Err(ErrorValue::DanglingReference(cluster_name)),
                Ok(Some(cluster)) => match map_get(body, "user"@) {
                    None => Err(ErrorValue::MissingField("user"@)),
                    Some(Value::Str(user_name)) => match find_named(users, user_name) {
                        Err(_) => Err(ErrorValue::TypeMismatch("entry"@)),
                        Ok(None) => Err(ErrorValue::DanglingReference(user_name)),
                        Ok(Some(user)) => match map_get(body, "namespace"@) {
                            None => Err(ErrorValue::MissingField("namespace"@)),
                            Some(Value::Str(namespace)) => Ok(
                                (
                                    identifier_value(pattern, cluster_name, namespace, user_name),
                                    config_value(
                                        seq![cluster],
                                        seq![ctx],
                                        seq![user],
                                        Some(name),
                                    ),
                                ),
                            ),
                            Some(_) => Err(ErrorValue::TypeMismatch("namespace"@)),
                        },
                    },
                    Some(_) => Err(ErrorValue::TypeMismatch("user"@)),
                },
            },
            Some(_) => Err(ErrorValue::TypeMismatch("cluster"@)),
        },
    }
}

/// The outcome of splitting a whole context list, in order: the batch of
/// identifier/document pairs, or the first error met.  A later context's
/// identifier colliding with an earlier one aborts everything.
pub open spec fn split_contexts(
    contexts: Seq<Value>,
    clusters: Seq<Value>,
    users: Seq<Value>,
    pattern: Seq<char>,
) -> Result<Seq<(Seq<char>, Value)>, ErrorValue>
    decreases contexts.len(),
{
    if contexts.len() == 0 {
        Ok(Seq::empty())
    } else {
        match split_contexts(contexts.drop_last(), clusters, users, pattern) {
            Err(e) => Err(e),
            Ok(batch) => match split_ctx(contexts.last(), clusters, users, pattern) {
                Err(e) => Err(e),
                Ok((id, out)) => if has_ident(batch, id) {
                    Err(ErrorValue::DuplicateIdentifier(id))
                } else {
                    Ok(batch.push((id, out)))
                },
            },
        }
    }
}

/// The outcome of splitting a whole source document: its `contexts`,
/// `clusters` and `users` lists are read in that order, then every context
/// is processed in document order.
pub open spec fn split_value(doc: Value, pattern: Seq<char>) -> Result<
    Seq<(Seq<char>, Value)>,
    ErrorValue,
> {
    match doc {
        Value::Mapping(es) => match map_get(es, "contexts"@) {
            None => Err(ErrorValue::MissingField("contexts"@)),
            Some(Value::List(contexts)) => match map_get(es, "clusters"@) {
                None => Err(ErrorValue::MissingField("clusters"@)),
                Some(Value::List(clusters)) => match map_get(es, "users"@) {
                    None => Err(ErrorValue::MissingField("users"@)),
                    Some(Value::List(users)) => split_contexts(contexts, clusters, users, pattern),
                    Some(_) => Err(ErrorValue::TypeMismatch("users"@)),
                },
                Some(_) => Err(ErrorValue::TypeMismatch("clusters"@)),
            },
            Some(_) => Err(ErrorValue::TypeMismatch("contexts"@)),
        },
        _ => Err(ErrorValue::TypeMismatch("document"@)),
    }
}

/// The model of an output batch vector.
pub open spec fn batch_view(batch: Seq<(String, Kubeconfig)>) -> Seq<(Seq<char>, Value)> {
    Seq::new(batch.len(), |i: int| (batch[i].0@, batch[i].1@))
}

/// An error met among the first `k` contexts settles the whole split.
proof fn lemma_split_err_extend(
    contexts: Seq<Value>,
    clusters: Seq<Value>,
    users: Seq<Value>,
    pattern: Seq<char>,
    k: int,
)
    requires
        0 <= k <= contexts.len(),
        split_contexts(contexts.take(k), clusters, users, pattern) is Err,
    ensures
        split_contexts(contexts, clusters, users, pattern) == split_contexts(
            contexts.take(k),
            clusters,
            users,
            pattern,
        ),
    decreases contexts.len(),
{
    if k == contexts.len() {
        assert(contexts.take(k) =~= contexts);
    } else {
        assert(contexts.drop_last().take(k) =~= contexts.take(k));
        lemma_split_err_extend(contexts.drop_last(), clusters, users, pattern, k);
    }
}

/// A failing context after a clean prefix settles the whole split.
proof fn lemma_step_err(
    contexts: Seq<Value>,
    clusters: Seq<Value>,
    users: Seq<Value>,
    pattern: Seq<char>,
    i: int,
    b: Seq<(Seq<char>, Value)>,
    e: ErrorValue,
)
    requires
        0 <= i < contexts.len(),
        split_contexts(contexts.take(i), clusters, users, pattern) == Ok::<_, ErrorValue>(b),
        split_ctx(contexts[i], clusters, users, pattern) == Err::<(Seq<char>, Value), _>(e),
    ensures
        split_contexts(contexts, clusters, users, pattern) == Err::<Seq<(Seq<char>, Value)>, _>(e),
{
    assert(contexts.take(i + 1).drop_last() =~= contexts.take(i));
    assert(contexts.take(i + 1).last() == contexts[i]);
    assert(split_contexts(contexts.take(i + 1), clusters, users, pattern) == Err::<
        Seq<(Seq<char>, Value)>,
        _,
    >(e));
    lemma_split_err_extend(contexts, clusters, users, pattern, i + 1);
}

/// Whether `batch` already carries an output under identifier `id`.
fn batch_has_ident(batch: &Vec<(String, Kubeconfig)>, id: &str) -> (r: bool)
    ensures
        r == has_ident(batch_view(batch@), id@),
{
    let n = batch.len();
    let mut i: usize = 0;
    while i < n
        invariant
            n == batch@.len(),
            i <= n,
            forall|j: int| 0 <= j < i ==> batch_view(batch@)[j].0 != id@,
        decreases n - i,
    {
        proof {
            assert(batch_view(batch@)[i as int].0 == batch@[i as int].0@);
        }
        if str_eq(batch[i].0.as_str(), id) {
            return true;
        }
        i += 1;
    }
    proof {
        assert(batch_view(batch@).len() == batch@.len());
    }
    false
}

/// Splits a source configuration into one output document per context,
/// each under the identifier that the naming pattern derives for it.
///
/// The whole batch is returned only when every context resolves and every
/// identifier is unique; otherwise the first error aborts the split and
/// nothing is produced.
pub fn split_into_contexts(kubeconfig: &Yaml, output_file_pattern: &str) -> (r: Result<
    Vec<(String, Kubeconfig)>,
    SplitError,
>)
    ensures
        match r {
            Ok(batch) => split_value(kubeconfig@, output_file_pattern@) == Ok::<_, ErrorValue>(
                batch_view(batch@),
            ),
            Err(e) => split_value(kubeconfig@, output_file_pattern@) == Err::<
                Seq<(Seq<char>, Value)>,
                _,
            >(e@),
        },
{
    let ghost doc = kubeconfig@;
    let ghost p = output_file_pattern@;
    let data = match kubeconfig {
        Yaml::Mapping(es) => {
            proof {
                lemma_map_view(*es);
            }
            es
        },
        _ => {
            proof {
                lemma_view_kind(*kubeconfig);
            }
            return Err(SplitError::TypeMismatch("document".to_owned()));
        },
    };
    let contexts = match read_list(data, "contexts") {
        Ok(l) => l,
        Err(e) => {
            return Err(e);
        },
    };
    let clusters = match read_list(data, "clusters") {
        Ok(l) => l,
        Err(e) => {
            return Err(e);
        },
    };
    let users = match read_list(data, "users") {
        Ok(l) => l,
        Err(e) => {
            return Err(e);
        },
    };
    let ghost cs = items_view(contexts@);
    let ghost cls = items_view(clusters@);
    let ghost uss = items_view(users@);
    proof {
        assert(split_value(doc, p) == split_contexts(cs, cls, uss, p));
        assert(cs.take(0) =~= Seq::<Value>::empty());
    }
    let mut batch: Vec<(String, Kubeconfig)> = Vec::new();
    proof {
        assert(batch_view(batch@) =~= Seq::<(Seq<char>, Value)>::empty());
    }
    let n = contexts.len();
    let mut i: usize = 0;
    while i < n
        invariant
            n == contexts@.len(),
            i <= n,
            cs == items_view(contexts@),
            cls == items_view(clusters@),
            uss == items_view(users@),
            doc == kubeconfig@,
            p == output_file_pattern@,
            split_value(doc, p) == split_contexts(cs, cls, uss, p),
            split_contexts(cs.take(i as int), cls, uss, p) == Ok::<_, ErrorValue>(
                batch_view(batch@),
            ),
        decreases n - i,
    {
        let ctx = &contexts[i];
        proof {
            assert(cs[i as int] == ctx@);
        }
        let (ctxname, ctxdata) = match read_context(ctx) {
            Ok(parts) => parts,
            Err(e) => {
                proof {
                    lemma_step_err(cs, cls, uss, p, i as int, batch_view(batch@), e@);
                }
                return Err(e);
            },
        };
        let cluster_name = match read_string(ctxdata, "cluster") {
            Ok(s) => s,
            Err(e) => {
                proof {
                    lemma_step_err(cs, cls, uss, p, i as int, batch_view(batch@), e@);
                }
                return Err(e);
            },
        };
        let cluster = match find_entry(clusters, cluster_name) {
            Ok(Some(c)) => c,
            Ok(None) => {
                let e = SplitError::DanglingReference(cluster_name.to_owned());
                proof {
                    lemma_step_err(cs, cls, uss, p, i as int, batch_view(batch@), e@);
                }
                return Err(e);
            },
            Err(e) => {
                proof {
                    lemma_step_err(cs, cls, uss, p, i as int, batch_view(batch@), e@);
                }
                return Err(e);
            },
        };
        let user_name = match read_string(ctxdata, "user") {
            Ok(s) => s,
            Err(e) => {
                proof {
                    lemma_step_err(cs, cls, uss, p, i as int, batch_view(batch@), e@);
                }
                return Err(e);
            },
        };
        let user = match find_entry(users, user_name) {
            Ok(Some(u)) => u,
            Ok(None) => {
                let e = SplitError::DanglingReference(user_name.to_owned());
                proof {
                    lemma_step_err(cs, cls, uss, p, i as int, batch_view(batch@), e@);
                }
                return Err(e);
            },
            Err(e) => {
                proof {
                    lemma_step_err(cs, cls, uss, p, i as int, batch_view(batch@), e@);
                }
                return Err(e);
            },
        };
        let mut out = Kubeconfig::new();
        if let Err(e) = out.add_context(ctxname, ctx, cluster, user, true) {
            proof {
                assert(false);
            }
            return Err(e);
        }
        let namespace = match read_string(ctxdata, "namespace") {
            Ok(s) => s,
            Err(e) => {
                proof {
                    lemma_step_err(cs, cls, uss, p, i as int, batch_view(batch@), e@);
                }
                return Err(e);
            },
        };
        let id = derive_identifier(output_file_pattern, cluster_name, namespace, user_name);
        proof {
            assert(out.contexts_v() =~= seq![ctx@]);
            assert(out.clusters_v() =~= seq![cluster@]);
            assert(out.users_v() =~= seq![user@]);
            assert(split_ctx(cs[i as int], cls, uss, p) == Ok::<_, ErrorValue>((id@, out@)));
        }
        if batch_has_ident(&batch, id.as_str()) {
            let e = SplitError::DuplicateIdentifier(id);
            proof {
                assert(cs.take(i + 1).drop_last() =~= cs.take(i as int));
                assert(cs.take(i + 1).last() == cs[i as int]);
                assert(split_contexts(cs.take(i + 1), cls, uss, p) == Err::<
                    Seq<(Seq<char>, Value)>,
                    _,
                >(e@));
                lemma_split_err_extend(cs, cls, uss, p, i + 1);
            }
            return Err(e);
        }
        let ghost prev = batch_view(batch@);
        batch.push((id, out));
        proof {
            assert(batch_view(batch@) =~= prev.push((batch@.last().0@, batch@.last().1@)));
            assert(cs.take(i + 1).drop_last() =~= cs.take(i as int));
            assert(cs.take(i + 1).last() == cs[i as int]);
            assert(split_contexts(cs.take(i + 1), cls, uss, p) == Ok::<_, ErrorValue>(
                batch_view(batch@),
            ));
        }
        i += 1;
    }
    proof {
        assert(cs.take(i as int) =~= cs);
    }
    Ok(batch)
}

/// What every lookup in an output configuration document yields.
pub proof fn lemma_config_value_get(
    clusters: Seq<Value>,
    contexts: Seq<Value>,
    users: Seq<Value>,
    current: Option<Value>,
)
    ensures
        config_value(clusters, contexts, users, current) matches Value::Mapping(es) && {
            &&& map_get(es, "apiVersion"@) == Some(Value::Str("v1"@))
            &&& map_get(es, "kind"@) == Some(Value::Str("Config"@))
            &&& map_get(es, "clusters"@) == Some(Value::List(clusters))
            &&& map_get(es, "contexts"@) == Some(Value::List(contexts))
            &&& map_get(es, "users"@) == Some(Value::List(users))
            &&& map_get(es, "current-context"@) == current
        },
{
    reveal_strlit("apiVersion");
    reveal_strlit("kind");
    reveal_strlit("clusters");
    reveal_strlit("contexts");
    reveal_strlit("users");
    reveal_strlit("current-context");
    reveal_with_fuel(map_get, 8);
    assert("apiVersion"@.len() == 10);
    assert("kind"@.len() == 4);
    assert("clusters"@.len() == 8);
    assert("contexts"@.len() == 8);
    assert("users"@.len() == 5);
    assert("current-context"@.len() == 15);
    assert("clusters"@[1] == 'l');
    assert("contexts"@[1] == 'o');
    let es = config_value(clusters, contexts, users, current)->Mapping_0;
    let tail: Seq<(Seq<char>, Value)> = match current {
        Some(name) => seq![("current-context"@, name)],
        None => Seq::empty(),
    };
    let s1 = es.drop_first();
    let s2 = s1.drop_first();
    let s3 = s2.drop_first();
    let s4 = s3.drop_first();
    let s5 = s4.drop_first();
    assert(s1 =~= seq![
        ("kind"@, Value::Str("Config"@)),
        ("clusters"@, Value::List(clusters)),
        ("contexts"@, Value::List(contexts)),
        ("users"@, Value::List(users)),
    ] + tail);
    assert(s2 =~= seq![
        ("clusters"@, Value::List(clusters)),
        ("contexts"@, Value::List(contexts)),
        ("users"@, Value::List(users)),
    ] + tail);
    assert(s3 =~= seq![("contexts"@, Value::List(contexts)), ("users"@, Value::List(users))]
        + tail);
    assert(s4 =~= seq![("users"@, Value::List(users))] + tail);
    assert(s5 =~= tail);
    assert(map_get(es, "apiVersion"@) == Some(Value::Str("v1"@)));
    assert(map_get(es, "kind"@) == map_get(s1, "kind"@));
    assert(map_get(es, "clusters"@) == map_get(s2, "clusters"@));
    assert(map_get(es, "contexts"@) == map_get(s3, "contexts"@));
    assert(map_get(es, "users"@) == map_get(s4, "users"@));
    assert(map_get(es, "current-context"@) == map_get(s5, "current-context"@));
    match current {
        Some(name) => {
            assert(map_get(s5, "current-context"@) == Some(name));
        },
        None => {
            assert(map_get(s5, "current-context"@) is None);
        },
    }
}

/// Every output of one successful split, pointwise: each context's own
/// outcome stands at its position in the batch, and all identifiers are
/// pairwise distinct.
pub proof fn lemma_split_ok(
    contexts: Seq<Value>,
    clusters: Seq<Value>,
    users: Seq<Value>,
    pattern: Seq<char>,
    batch: Seq<(Seq<char>, Value)>,
)
    requires
        split_contexts(contexts, clusters, users, pattern) == Ok::<_, ErrorValue>(batch),
    ensures
        batch.len() == contexts.len(),
        forall|k: int|
            0 <= k < contexts.len() ==> #[trigger] split_ctx(contexts[k], clusters, users, pattern)
                == Ok::<_, ErrorValue>(batch[k]),
        forall|i: int, j: int| 0 <= i < j < batch.len() ==> batch[i].0 != batch[j].0,
    decreases contexts.len(),
{
    if contexts.len() > 0 {
        let prev = contexts.drop_last();
        match split_contexts(prev, clusters, users, pattern) {
            Ok(b0) => {
                lemma_split_ok(prev, clusters, users, pattern, b0);
                match split_ctx(contexts.last(), clusters, users, pattern) {
                    Ok(pair) => {
                        assert(!has_ident(b0, pair.0));
                        assert(batch == b0.push(pair));
                        assert forall|k: int| 0 <= k < contexts.len() implies #[trigger] split_ctx(
                            contexts[k],
                            clusters,
                            users,
                            pattern,
                        ) == Ok::<_, ErrorValue>(batch[k]) by {
                            if k < contexts.len() - 1 {
                                assert(prev[k] == contexts[k]);
                                assert(batch[k] == b0[k]);
                            } else {
                                assert(contexts[k] == contexts.last());
                                assert(batch[k] == pair);
                            }
                        }
                        assert forall|i: int, j: int|
                            0 <= i < j < batch.len() implies batch[i].0 != batch[j].0 by {
                            if j < batch.len() - 1 {
                                assert(batch[i] == b0[i] && batch[j] == b0[j]);
                            } else {
                                assert(batch[i] == b0[i] && batch[j] == pair);
                                if b0[i].0 == pair.0 {
                                    assert(has_ident(b0, pair.0));
                                }
                            }
                        }
                    },
                    Err(_) => {
                        assert(false);
                    },
                }
            },
            Err(_) => {
                assert(false);
            },
        }
    }
}

/// Uniqueness-or-abort: when two distinct contexts derive the same output
/// identifier, the whole split fails and no batch is produced.
pub proof fn lemma_duplicate_identifier_aborts(
    contexts: Seq<Value>,
    clusters: Seq<Value>,
    users: Seq<Value>,
    pattern: Seq<char>,
    i: int,
    j: int,
)
    requires
        0 <= i < j < contexts.len(),
        split_ctx(contexts[i], clusters, users, pattern) is Ok,
        split_ctx(contexts[j], clusters, users, pattern) is Ok,
        split_ctx(contexts[i], clusters, users, pattern)->Ok_0.0 == split_ctx(
            contexts[j],
            clusters,
            users,
            pattern,
        )->Ok_0.0,
    ensures
        split_contexts(contexts, clusters, users, pattern) is Err,
{
    match split_contexts(contexts, clusters, users, pattern) {
        Ok(batch) => {
            lemma_split_ok(contexts, clusters, users, pattern, batch);
            assert(split_ctx(contexts[i], clusters, users, pattern) == Ok::<_, ErrorValue>(
                batch[i],
            ));
            assert(split_ctx(contexts[j], clusters, users, pattern) == Ok::<_, ErrorValue>(
                batch[j],
            ));
            assert(batch[i].0 == batch[j].0);
            assert(false);
        },
        Err(_) => {},
    }
}

/// Referential completeness and the cardinality invariant of one output:
/// its `contexts` list holds exactly its own context, its `clusters` and
/// `users` lists hold exactly one entry each, and each of those entries
/// carries the very name that the context references; its
/// `current-context` is always set to the context's name.
pub proof fn lemma_output_well_formed(
    ctx: Value,
    clusters: Seq<Value>,
    users: Seq<Value>,
    pattern: Seq<char>,
    id: Seq<char>,
    out: Value,
)
    requires
        split_ctx(ctx, clusters, users, pattern) == Ok::<_, ErrorValue>((id, out)),
    ensures
        ctx_parts(ctx) is Some,
        out matches Value::Mapping(oes) && {
            let body = ctx_parts(ctx)->Some_0.1;
            &&& map_get(oes, "contexts"@) == Some(Value::List(seq![ctx]))
            &&& map_get(oes, "current-context"@) == Some(ctx_parts(ctx)->Some_0.0)
            &&& map_get(oes, "clusters"@) matches Some(Value::List(cl)) && cl.len() == 1 && (
            cl[0] matches Value::Mapping(ces) && map_get(ces, "name"@) == map_get(body, "cluster"@))
            &&& map_get(oes, "users"@) matches Some(Value::List(ul)) && ul.len() == 1 && (
            ul[0] matches Value::Mapping(ues) && map_get(ues, "name"@) == map_get(body, "user"@))
        },
{
    let body = ctx_parts(ctx)->Some_0.1;
    let cluster_name = map_get(body, "cluster"@)->Some_0->Str_0;
    let user_name = map_get(body, "user"@)->Some_0->Str_0;
    let cluster = find_named(clusters, cluster_name)->Ok_0->Some_0;
    let user = find_named(users, user_name)->Ok_0->Some_0;
    lemma_find_named_found(clusters, cluster_name);
    lemma_find_named_found(users, user_name);
    lemma_config_value_get(
        seq![cluster],
        seq![ctx],
        seq![user],
        Some(ctx_parts(ctx)->Some_0.0),
    );
}

/// Every output document of a successful split is itself a recognized
/// configuration: it carries the same `apiVersion` and `kind` markers that
/// recognition demands of a source.
pub proof fn lemma_output_recognized(
    ctx: Value,
    clusters: Seq<Value>,
    users: Seq<Value>,
    pattern: Seq<char>,
    id: Seq<char>,
    out: Value,
)
    requires
        split_ctx(ctx, clusters, users, pattern) == Ok::<_, ErrorValue>((id, out)),
    ensures
        recognized(out),
{
    let cluster_name = map_get(ctx_parts(ctx)->Some_0.1, "cluster"@)->Some_0->Str_0;
    let user_name = map_get(ctx_parts(ctx)->Some_0.1, "user"@)->Some_0->Str_0;
    let cluster = find_named(clusters, cluster_name)->Ok_0->Some_0;
    let user = find_named(users, user_name)->Ok_0->Some_0;
    lemma_config_value_get(
        seq![cluster],
        seq![ctx],
        seq![user],
        Some(ctx_parts(ctx)->Some_0.0),
    );
}

/// Recognition is a classification of the document alone: a document
/// without a `kind` field is never recognized, whatever its `apiVersion`.
pub proof fn lemma_missing_kind_not_recognized(doc: Value)
    requires
        doc matches Value::Mapping(es) ==> map_get(es, "kind"@) is None,
    ensures
        !recognized(doc),
{
}

/// A fresh vector of structurally equal copies of the given items.
fn clone_items(list: &Vec<Yaml>) -> (r: Vec<Yaml>)
    ensures
        items_view(r@) == items_view(list@),
{
    let n = list.len();
    let mut out: Vec<Yaml> = Vec::new();
    let mut i: usize = 0;
    while i < n
        invariant
            n == list@.len(),
            i <= n,
            out@.len() == i,
            forall|j: int| 0 <= j < i ==> items_view(out@)[j] == items_view(list@)[j],
        decreases n - i,
    {
        out.push(list[i].deep_clone());
        i += 1;
    }
    proof {
        assert(items_view(out@) =~= items_view(list@));
    }
    out
}

} // verus!
