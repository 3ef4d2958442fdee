//! Output-identifier derivation: literal token substitution in a naming
//! pattern.

use vstd::prelude::*;

verus! {

/// `s` with every occurrence of `pat` replaced by `sub`, scanning left to
/// right; replaced text is not re-scanned for further matches.
pub open spec fn replace_value(s: Seq<char>, pat: Seq<char>, sub: Seq<char>) -> Seq<char>
    decreases s.len(),
{
    if pat.len() == 0 || s.len() < pat.len() {
        s
    } else if s.subrange(0, pat.len() as int) == pat {
        sub + replace_value(s.skip(pat.len() as int), pat, sub)
    } else {
        seq![s[0]] + replace_value(s.skip(1), pat, sub)
    }
}

/// Whether `pat` occurs in `s` starting at character position `i`.
fn matches_at(s: &str, i: usize, pat: &str) -> (r: bool)
    requires
        i + pat@.len() <= s@.len(),
    ensures
        r == (s@.subrange(i as int, i + pat@.len()) == pat@),
{
    let n = s.unicode_len();
    let m = pat.unicode_len();
    let mut j: usize = 0;
    while j < m
        invariant
            n == s@.len(),
            m == pat@.len(),
            i + m <= n,
            j <= m,
            forall|k: int| 0 <= k < j ==> s@[i + k] == pat@[k],
        decreases m - j,
    {
        if s.get_char(i + j) != pat.get_char(j) {
            proof {
                assert(s@.subrange(i as int, i + m)[j as int] == s@[i + j]);
            }
            return false;
        }
        j += 1;
    }
    proof {
        assert(s@.subrange(i as int, i + m) =~= pat@);
    }
    true
}

/// `s` with every occurrence of `pat` replaced by `sub`.
pub fn replace_all(s: &str, pat: &str, sub: &str) -> (r: String)
    requires
        pat@.len() >= 1,
    ensures
        r@ == replace_value(s@, pat@, sub@),
{
    let n = s.unicode_len();
    let m = pat.unicode_len();
    let mut res = String::new();
    let mut i: usize = 0;
    proof {
        assert(s@.skip(0) =~= s@);
    }
    while i < n
        invariant
            n == s@.len(),
            m == pat@.len(),
            m >= 1,
            i <= n,
            replace_value(s@, pat@, sub@) == res@ + replace_value(s@.skip(i as int), pat@, sub@),
        decreases n - i,
    {
        let ghost t = s@.skip(i as int);
        proof {
            assert(t.len() == n - i);
            assert(t[0] == s@[i as int]);
        }
        if m <= n - i && matches_at(s, i, pat) {
            res.append(sub);
            proof {
                assert(t.subrange(0, m as int) =~= s@.subrange(i as int, i + m));
                assert(t.skip(m as int) =~= s@.skip(i + m));
                assert(replace_value(t, pat@, sub@) == sub@ + replace_value(
                    t.skip(m as int),
                    pat@,
                    sub@,
                ));
            }
            i += m;
        } else {
            let c = s.substring_char(i, i + 1);
            res.append(c);
            proof {
                assert(c@ =~= seq![t[0]]);
                assert(t.skip(1) =~= s@.skip(i + 1));
                if t.len() < m {
                    assert(replace_value(t, pat@, sub@) == t);
                    assert(replace_value(t.skip(1), pat@, sub@) == t.skip(1));
                    assert(t =~= seq![t[0]] + t.skip(1));
                } else {
                    assert(t.subrange(0, m as int) =~= s@.subrange(i as int, i + m));
                    assert(replace_value(t, pat@, sub@) == seq![t[0]] + replace_value(
                        t.skip(1),
                        pat@,
                        sub@,
                    ));
                }
            }
            i += 1;
        }
    }
    proof {
        assert(s@.skip(n as int) =~= Seq::<char>::empty());
        assert(replace_value(s@.skip(n as int), pat@, sub@) == Seq::<char>::empty());
        assert(res@ + Seq::<char>::empty() =~= res@);
    }
    res
}

/// A name made filesystem-safe: every path separator becomes an underscore.
pub open spec fn sanitized(name: Seq<char>) -> Seq<char> {
    replace_value(name, "/"@, "_"@)
}

/// Whether `s` begins with `p`.
pub open spec fn starts_with(s: Seq<char>, p: Seq<char>) -> bool {
    p.len() <= s.len() && s.subrange(0, p.len() as int) == p
}

/// The output identifier for one context: one left-to-right pass over the
/// naming pattern alone.  Wherever one of the literal tokens `CLUSTER`,
/// `NAMESPACE` or `USER` starts, its replacement — the sanitized cluster
/// name, the raw namespace, the sanitized user name — is emitted and the
/// token skipped; every other character is kept.  Substituted text is
/// never re-scanned for further token matches, so the order of the tokens
/// does not matter: they cannot overlap in the pattern.
pub open spec fn identifier_value(
    pattern: Seq<char>,
    cluster: Seq<char>,
    namespace: Seq<char>,
    user: Seq<char>,
) -> Seq<char>
    decreases pattern.len(),
    via identifier_value_decreases
{
    if pattern.len() == 0 {
        Seq::empty()
    } else if starts_with(pattern, "CLUSTER"@) {
        sanitized(cluster) + identifier_value(
            pattern.skip("CLUSTER"@.len() as int),
            cluster,
            namespace,
            user,
        )
    } else if starts_with(pattern, "NAMESPACE"@) {
        namespace + identifier_value(
            pattern.skip("NAMESPACE"@.len() as int),
            cluster,
            namespace,
            user,
        )
    } else if starts_with(pattern, "USER"@) {
        sanitized(user) + identifier_value(
            pattern.skip("USER"@.len() as int),
            cluster,
            namespace,
            user,
        )
    } else {
        seq![pattern[0]] + identifier_value(pattern.skip(1), cluster, namespace, user)
    }
}

#[via_fn]
proof fn identifier_value_decreases(
    pattern: Seq<char>,
    cluster: Seq<char>,
    namespace: Seq<char>,
    user: Seq<char>,
) {
    reveal_strlit("CLUSTER");
    reveal_strlit("NAMESPACE");
    reveal_strlit("USER");
    assert("CLUSTER"@.len() == 7);
    assert("NAMESPACE"@.len() == 9);
    assert("USER"@.len() == 4);
}

/// Derives the output identifier for one context from the naming pattern.
pub fn derive_identifier(pattern: &str, cluster: &str, namespace: &str, user: &str) -> (r: String)
    ensures
        r@ == identifier_value(pattern@, cluster@, namespace@, user@),
{
    proof {
        reveal_strlit("/");
        reveal_strlit("_");
        reveal_strlit("CLUSTER");
        reveal_strlit("NAMESPACE");
        reveal_strlit("USER");
    }
    let cluster_safe = replace_all(cluster, "/", "_");
    let user_safe = replace_all(user, "/", "_");
    let n = pattern.unicode_len();
    let mut res = String::new();
    let mut i: usize = 0;
    proof {
        assert(pattern@.skip(0) =~= pattern@);
    }
    while i < n
        invariant
            n == pattern@.len(),
            i <= n,
            cluster_safe@ == sanitized(cluster@),
            user_safe@ == sanitized(user@),
            identifier_value(pattern@, cluster@, namespace@, user@) == res@ + identifier_value(
                pattern@.skip(i as int),
                cluster@,
                namespace@,
                user@,
            ),
        decreases n - i,
    {
        let ghost t = pattern@.skip(i as int);
        proof {
            reveal_strlit("CLUSTER");
            reveal_strlit("NAMESPACE");
            reveal_strlit("USER");
            assert(t.len() == n - i);
            if 7 <= n - i {
                assert(t.subrange(0, 7) =~= pattern@.subrange(i as int, i + 7));
            }
            if 9 <= n - i {
                assert(t.subrange(0, 9) =~= pattern@.subrange(i as int, i + 9));
            }
            if 4 <= n - i {
                assert(t.subrange(0, 4) =~= pattern@.subrange(i as int, i + 4));
            }
        }
        if 7 <= n - i && matches_at(pattern, i, "CLUSTER") {
            res.append(cluster_safe.as_str());
            proof {
                assert(t.subrange(0, 7) =~= pattern@.subrange(i as int, i + 7));
                assert(starts_with(t, "CLUSTER"@));
                assert(t.skip(7) =~= pattern@.skip(i + 7));
            }
            i += 7;
        } else if 9 <= n - i && matches_at(pattern, i, "NAMESPACE") {
            res.append(namespace);
            proof {
                assert(t.subrange(0, 9) =~= pattern@.subrange(i as int, i + 9));
                assert(starts_with(t, "NAMESPACE"@));
                assert(!starts_with(t, "CLUSTER"@));
                assert(t.skip(9) =~= pattern@.skip(i + 9));
            }
            i += 9;
        } else if 4 <= n - i && matches_at(pattern, i, "USER") {
            res.append(user_safe.as_str());
            proof {
                assert(t.subrange(0, 4) =~= pattern@.subrange(i as int, i + 4));
                assert(starts_with(t, "USER"@));
                assert(!starts_with(t, "CLUSTER"@));
                assert(!starts_with(t, "NAMESPACE"@));
                assert(t.skip(4) =~= pattern@.skip(i + 4));
            }
            i += 4;
        } else {
            let c = pattern.substring_char(i, i + 1);
            res.append(c);
            proof {
                assert(c@ =~= seq![t[0]]);
                assert(!starts_with(t, "CLUSTER"@));
                assert(!starts_with(t, "NAMESPACE"@));
                assert(!starts_with(t, "USER"@));
                assert(t.skip(1) =~= pattern@.skip(i + 1));
            }
            i += 1;
        }
    }
    proof {
        assert(pattern@.skip(n as int) =~= Seq::<char>::empty());
        assert(identifier_value(pattern@.skip(n as int), cluster@, namespace@, user@)
            == Seq::<char>::empty());
        assert(res@ + Seq::<char>::empty() =~= res@);
    }
    res
}

} // verus!
