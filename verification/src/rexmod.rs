//! The re-exported-modules map: for each module, which other modules it
//! re-publishes, by name and full path — the data behind a module page's
//! re-export listing. Parents and their lists are kept sorted and free of
//! duplicates, so the map is a canonical function of the input.

use crate::store::{ItemKind, ItemStore, lemma_assoc_some_iff_contains, spec_assoc};
use crate::assign::{spec_is_visible_use, spec_module_at, spec_module_members};
use crate::strutil::{
    clone_segments, lemma_lex_lt_connex, lemma_lex_lt_irreflexive, lemma_lex_lt_transitive,
    lemma_plex_lt_connex, lemma_plex_lt_irreflexive, lemma_plex_lt_transitive, lex_lt, path_eq,
    path_lt, plex_lt, seq_views, str_eq, str_lt,
};
use vstd::prelude::*;

verus! {

/// One module's re-export listing.
pub struct RexBucket {
    /// Module path segments.
    pub key: Vec<String>,
    /// (module name, full module path) pairs, sorted and distinct.
    pub entries: Vec<(String, Vec<String>)>,
}

/// The whole map, sorted by module path.
pub struct ReexportedModules {
    /// The listings, with pairwise distinct keys in increasing order.
    pub buckets: Vec<RexBucket>,
}

/// Order on listed pairs: by name, then by path.
pub open spec fn pair_lt(a: (Seq<char>, Seq<Seq<char>>), b: (Seq<char>, Seq<Seq<char>>)) -> bool {
    ||| lex_lt(a.0, b.0)
    ||| (a.0 == b.0 && plex_lt(a.1, b.1))
}

proof fn lemma_pair_lt_connex(a: (Seq<char>, Seq<Seq<char>>), b: (Seq<char>, Seq<Seq<char>>))
    ensures
        pair_lt(a, b) || pair_lt(b, a) || a == b,
{
    lemma_lex_lt_connex(a.0, b.0);
    if a.0 == b.0 {
        lemma_plex_lt_connex(a.1, b.1);
    }
}

proof fn lemma_pair_lt_transitive(
    a: (Seq<char>, Seq<Seq<char>>),
    b: (Seq<char>, Seq<Seq<char>>),
    c: (Seq<char>, Seq<Seq<char>>),
)
    requires
        pair_lt(a, b),
        pair_lt(b, c),
    ensures
        pair_lt(a, c),
{
    lemma_lex_lt_irreflexive(a.0);
    lemma_lex_lt_irreflexive(b.0);
    if lex_lt(a.0, b.0) && lex_lt(b.0, c.0) {
        lemma_lex_lt_transitive(a.0, b.0, c.0);
    }
    if a.0 == b.0 && b.0 == c.0 && plex_lt(a.1, b.1) && plex_lt(b.1, c.1) {
        lemma_plex_lt_transitive(a.1, b.1, c.1);
    }
}

/// The view of a listed pair.
pub open spec fn pair_view(p: (String, Vec<String>)) -> (Seq<char>, Seq<Seq<char>>) {
    (p.0@, seq_views(p.1@))
}

/// Whether a listing holds a pair, by view.
pub open spec fn pairs_contain(
    s: Seq<(String, Vec<String>)>,
    nm: Seq<char>,
    fp: Seq<Seq<char>>,
) -> bool {
    exists|i: int| 0 <= i < s.len() && pair_view(#[trigger] s[i]) == (nm, fp)
}

/// Order test on listed pairs.
fn pair_lt_exec(an: &str, ap: &Vec<String>, bn: &str, bp: &Vec<String>) -> (r: bool)
    ensures
        r == pair_lt((an@, seq_views(ap@)), (bn@, seq_views(bp@))),
{
    if str_lt(an, bn) {
        true
    } else {
        str_eq(an, bn) && path_lt(ap, bp)
    }
}

/// Insert a pair into a sorted listing, keeping it sorted and distinct.
fn insert_sorted_pair(entries: &mut Vec<(String, Vec<String>)>, nm: &str, fp: &Vec<String>)
    requires
        forall|a: int, b: int|
            0 <= a < b < old(entries)@.len() ==> pair_lt(
                pair_view(#[trigger] old(entries)@[a]),
                pair_view(#[trigger] old(entries)@[b]),
            ),
    ensures
        forall|a: int, b: int|
            0 <= a < b < final(entries)@.len() ==> pair_lt(
                pair_view(#[trigger] final(entries)@[a]),
                pair_view(#[trigger] final(entries)@[b]),
            ),
        forall|n2: Seq<char>, p2: Seq<Seq<char>>|
            #[trigger] pairs_contain(final(entries)@, n2, p2) == (pairs_contain(
                old(entries)@,
                n2,
                p2,
            ) || (n2 == nm@ && p2 == seq_views(fp@))),
{
    let ghost orig = entries@;
    let ghost xv = (nm@, seq_views(fp@));
    let mut p: usize = 0;
    loop
        invariant
            p <= entries@.len(),
            entries@ == orig,
            xv == (nm@, seq_views(fp@)),
            forall|a: int, b: int|
                0 <= a < b < orig.len() ==> pair_lt(
                    pair_view(#[trigger] orig[a]),
                    pair_view(#[trigger] orig[b]),
                ),
            forall|a: int| 0 <= a < p ==> pair_lt(pair_view(#[trigger] orig[a]), xv),
        ensures
            entries@ == orig,
            p <= orig.len(),
            forall|a: int| 0 <= a < p ==> pair_lt(pair_view(#[trigger] orig[a]), xv),
            p < orig.len() ==> !pair_lt(pair_view(orig[p as int]), xv),
        decreases orig.len() - p,
    {
        if p == entries.len() {
            break;
        }
        if pair_lt_exec(entries[p].0.as_str(), &entries[p].1, nm, fp) {
            p = p + 1;
        } else {
            break;
        }
    }
    let mut already = false;
    if p < entries.len() {
        if str_eq(entries[p].0.as_str(), nm) && path_eq(&entries[p].1, fp) {
            already = true;
        }
    }
    if already {
        proof {
            assert(pair_view(orig[p as int]) == xv);
            assert forall|n2: Seq<char>, p2: Seq<Seq<char>>|
                #[trigger] pairs_contain(entries@, n2, p2) == (pairs_contain(orig, n2, p2) || (n2
                    == nm@ && p2 == seq_views(fp@))) by {
                if n2 == nm@ && p2 == seq_views(fp@) {
                    assert(pair_view(orig[p as int]) == (n2, p2));
                    assert(pairs_contain(orig, n2, p2));
                }
            }
        }
        return;
    }
    proof {
        if (p as int) < orig.len() {
            lemma_pair_lt_connex(xv, pair_view(orig[p as int]));
        }
    }
    let pair = (String::from_str(nm), clone_segments(fp));
    proof {
        assert(pair_view(pair) == xv);
    }
    entries.insert(p, pair);
    proof {
        let t = entries@;
        assert(pair_view(t[p as int]) == xv);
        assert forall|a: int, b: int| 0 <= a < b < t.len() implies pair_lt(
            pair_view(#[trigger] t[a]),
            pair_view(#[trigger] t[b]),
        ) by {
            if a < p && b < p {
                assert(t[a] == orig[a] && t[b] == orig[b]);
            } else if a < p && b == p {
                assert(t[a] == orig[a]);
            } else if a < p && b > p {
                assert(t[a] == orig[a] && t[b] == orig[b - 1]);
                if p == b - 1 {
                    lemma_pair_lt_transitive(pair_view(orig[a]), xv, pair_view(orig[p as int]));
                }
            } else if a == p {
                assert(t[b] == orig[b - 1]);
                if b - 1 > p {
                    lemma_pair_lt_transitive(
                        xv,
                        pair_view(orig[p as int]),
                        pair_view(orig[b - 1]),
                    );
                }
            } else {
                assert(t[a] == orig[a - 1] && t[b] == orig[b - 1]);
            }
        }
        assert forall|n2: Seq<char>, p2: Seq<Seq<char>>|
            #[trigger] pairs_contain(t, n2, p2) == (pairs_contain(orig, n2, p2) || (n2 == nm@ && p2
                == seq_views(fp@))) by {
            if pairs_contain(t, n2, p2) {
                let i = choose|i: int| 0 <= i < t.len() && pair_view(#[trigger] t[i]) == (n2, p2);
                if i < p {
                    assert(pair_view(orig[i]) == (n2, p2));
                    assert(pairs_contain(orig, n2, p2));
                } else if i > p {
                    assert(t[i] == orig[i - 1]);
                    assert(pairs_contain(orig, n2, p2));
                }
            }
            if pairs_contain(orig, n2, p2) {
                let i = choose|i: int|
                    0 <= i < orig.len() && pair_view(#[trigger] orig[i]) == (n2, p2);
                if i < p {
                    assert(pair_view(t[i]) == (n2, p2));
                } else {
                    assert(t[i + 1] == orig[i]);
                    assert(pair_view(t[i + 1]) == (n2, p2));
                }
                assert(pairs_contain(t, n2, p2));
            }
            if n2 == nm@ && p2 == seq_views(fp@) {
                assert(pair_view(t[p as int]) == (n2, p2));
                assert(pairs_contain(t, n2, p2));
            }
        }
    }
}


/// Whether some listing carries the key.
pub open spec fn rex_has_key(s: Seq<RexBucket>, k: Seq<Seq<char>>) -> bool {
    exists|i: int| 0 <= i < s.len() && seq_views(#[trigger] s[i].key@) == k
}

/// Whether the listing for `k` holds the pair.
pub open spec fn rex_member(
    s: Seq<RexBucket>,
    k: Seq<Seq<char>>,
    nm: Seq<char>,
    fp: Seq<Seq<char>>,
) -> bool {
    exists|i: int|
        0 <= i < s.len() && seq_views(#[trigger] s[i].key@) == k && pairs_contain(
            s[i].entries@,
            nm,
            fp,
        )
}

impl ReexportedModules {
    /// Sorted, distinct keys; sorted, distinct pairs in each listing.
    pub open spec fn wf(&self) -> bool {
        &&& forall|i: int, j: int|
            0 <= i < j < self.buckets@.len() ==> plex_lt(
                seq_views(#[trigger] self.buckets@[i].key@),
                seq_views(#[trigger] self.buckets@[j].key@),
            )
        &&& forall|i: int, a: int, b: int|
            0 <= i < self.buckets@.len() && 0 <= a < b < self.buckets@[i].entries@.len()
                ==> pair_lt(
                pair_view(#[trigger] self.buckets@[i].entries@[a]),
                pair_view(#[trigger] self.buckets@[i].entries@[b]),
            )
    }
}

/// Find the listing for a key, creating an empty one in sorted position when
/// absent; returns its index.
fn rex_position(m: &mut ReexportedModules, key: &Vec<String>) -> (p: usize)
    requires
        old(m).wf(),
    ensures
        final(m).wf(),
        p < final(m).buckets@.len(),
        p <= old(m).buckets@.len(),
        seq_views(final(m).buckets@[p as int].key@) == seq_views(key@),
        (final(m).buckets@ == old(m).buckets@) || (final(m).buckets@ == old(m).buckets@.insert(
            p as int,
            final(m).buckets@[p as int],
        ) && final(m).buckets@[p as int].entries@ == Seq::<(String, Vec<String>)>::empty()),
{
    let ghost orig = m.buckets@;
    let ghost kv = seq_views(key@);
    let mut p: usize = 0;
    loop
        invariant
            p <= m.buckets@.len(),
            m.buckets@ == orig,
            old(m).wf(),
            m.buckets@ == old(m).buckets@,
            kv == seq_views(key@),
            forall|a: int| 0 <= a < p ==> plex_lt(seq_views(#[trigger] orig[a].key@), kv),
        ensures
            m.buckets@ == orig,
            p <= orig.len(),
            forall|a: int| 0 <= a < p ==> plex_lt(seq_views(#[trigger] orig[a].key@), kv),
            p < orig.len() ==> !plex_lt(seq_views(orig[p as int].key@), kv),
        decreases orig.len() - p,
    {
        if p == m.buckets.len() {
            break;
        }
        if path_lt(&m.buckets[p].key, key) {
            p = p + 1;
        } else {
            break;
        }
    }
    if p < m.buckets.len() {
        if path_eq(&m.buckets[p].key, key) {
            return p;
        }
    }
    proof {
        if (p as int) < orig.len() {
            lemma_plex_lt_connex(kv, seq_views(orig[p as int].key@));
        }
    }
    let nb = RexBucket { key: clone_segments(key), entries: Vec::new() };
    m.buckets.insert(p, nb);
    proof {
        let t = m.buckets@;
        assert(t[p as int].entries@ =~= Seq::<(String, Vec<String>)>::empty());
        assert forall|a: int, b: int| 0 <= a < b < t.len() implies plex_lt(
            seq_views(#[trigger] t[a].key@),
            seq_views(#[trigger] t[b].key@),
        ) by {
            if a < p && b < p {
                assert(t[a] == orig[a] && t[b] == orig[b]);
            } else if a < p && b == p {
                assert(t[a] == orig[a]);
            } else if a < p && b > p {
                assert(t[a] == orig[a] && t[b] == orig[b - 1]);
                if p == b - 1 {
                    lemma_plex_lt_transitive(
                        seq_views(orig[a].key@),
                        kv,
                        seq_views(orig[p as int].key@),
                    );
                }
            } else if a == p {
                assert(t[b] == orig[b - 1]);
                if b - 1 > p {
                    lemma_plex_lt_transitive(
                        kv,
                        seq_views(orig[p as int].key@),
                        seq_views(orig[b - 1].key@),
                    );
                }
            } else {
                assert(t[a] == orig[a - 1] && t[b] == orig[b - 1]);
            }
        }
        assert forall|i: int, a: int, b: int|
            0 <= i < t.len() && 0 <= a < b < t[i].entries@.len() implies pair_lt(
            pair_view(#[trigger] t[i].entries@[a]),
            pair_view(#[trigger] t[i].entries@[b]),
        ) by {
            if i < p {
                assert(t[i] == orig[i]);
            } else if i > p {
                assert(t[i] == orig[i - 1]);
            }
        }
    }
    p
}

/// Key-set and membership effect of inserting one listing, for one key and
/// pair.
proof fn lemma_rex_insert_effect(
    s: Seq<RexBucket>,
    p: int,
    nb: RexBucket,
    k: Seq<Seq<char>>,
    nm: Seq<char>,
    fp: Seq<Seq<char>>,
)
    requires
        0 <= p <= s.len(),
    ensures
        rex_has_key(s.insert(p, nb), k) == (rex_has_key(s, k) || seq_views(nb.key@) == k),
        rex_member(s.insert(p, nb), k, nm, fp) == (rex_member(s, k, nm, fp) || (seq_views(nb.key@)
            == k && pairs_contain(nb.entries@, nm, fp))),
{
    let t = s.insert(p, nb);
    assert(t[p] == nb);
    if rex_has_key(t, k) {
        let i = choose|i: int| 0 <= i < t.len() && seq_views(#[trigger] t[i].key@) == k;
        if i < p {
            assert(t[i] == s[i]);
            assert(rex_has_key(s, k));
        } else if i > p {
            assert(t[i] == s[i - 1]);
            assert(rex_has_key(s, k));
        }
    }
    if rex_has_key(s, k) {
        let i = choose|i: int| 0 <= i < s.len() && seq_views(#[trigger] s[i].key@) == k;
        if i < p {
            assert(seq_views(t[i].key@) == k);
        } else {
            assert(t[i + 1] == s[i]);
            assert(seq_views(t[i + 1].key@) == k);
        }
        assert(rex_has_key(t, k));
    }
    if seq_views(nb.key@) == k {
        assert(seq_views(t[p].key@) == k);
        assert(rex_has_key(t, k));
    }
    if rex_member(t, k, nm, fp) {
        let i = choose|i: int|
            0 <= i < t.len() && seq_views(#[trigger] t[i].key@) == k && pairs_contain(
                t[i].entries@,
                nm,
                fp,
            );
        if i < p {
            assert(t[i] == s[i]);
            assert(rex_member(s, k, nm, fp));
        } else if i > p {
            assert(t[i] == s[i - 1]);
            assert(rex_member(s, k, nm, fp));
        }
    }
    if rex_member(s, k, nm, fp) {
        let i = choose|i: int|
            0 <= i < s.len() && seq_views(#[trigger] s[i].key@) == k && pairs_contain(
                s[i].entries@,
                nm,
                fp,
            );
        if i < p {
            assert(seq_views(t[i].key@) == k && pairs_contain(t[i].entries@, nm, fp));
        } else {
            assert(t[i + 1] == s[i]);
            assert(seq_views(t[i + 1].key@) == k && pairs_contain(t[i + 1].entries@, nm, fp));
        }
        assert(rex_member(t, k, nm, fp));
    }
    if seq_views(nb.key@) == k && pairs_contain(nb.entries@, nm, fp) {
        assert(seq_views(t[p].key@) == k && pairs_contain(t[p].entries@, nm, fp));
        assert(rex_member(t, k, nm, fp));
    }
}

/// Add one pair to the listing for `key`, creating the listing when absent.
fn add_rex_pair(m: &mut ReexportedModules, key: &Vec<String>, nm: &str, fp: &Vec<String>)
    requires
        old(m).wf(),
    ensures
        final(m).wf(),
        forall|k: Seq<Seq<char>>|
            #[trigger] rex_has_key(final(m).buckets@, k) == (rex_has_key(old(m).buckets@, k) || k
                == seq_views(key@)),
        forall|k: Seq<Seq<char>>, n2: Seq<char>, p2: Seq<Seq<char>>|
            #[trigger] rex_member(final(m).buckets@, k, n2, p2) == (rex_member(
                old(m).buckets@,
                k,
                n2,
                p2,
            ) || (k == seq_views(key@) && n2 == nm@ && p2 == seq_views(fp@))),
{
    let ghost orig = m.buckets@;
    let p = rex_position(m, key);
    let ghost mid = m.buckets@;
    proof {
        if mid != orig {
            assert forall|k: Seq<Seq<char>>|
                #[trigger] rex_has_key(mid, k) == (rex_has_key(orig, k) || k == seq_views(
                    key@,
                )) by {
                lemma_rex_insert_effect(orig, p as int, mid[p as int], k, Seq::empty(), Seq::empty());
            }
            assert forall|k: Seq<Seq<char>>, n2: Seq<char>, p2: Seq<Seq<char>>|
                #[trigger] rex_member(mid, k, n2, p2) == rex_member(orig, k, n2, p2) by {
                lemma_rex_insert_effect(orig, p as int, mid[p as int], k, n2, p2);
            }
        } else {
            assert(seq_views(orig[p as int].key@) == seq_views(key@));
            assert(rex_has_key(orig, seq_views(key@)));
        }
    }
    let mut b = m.buckets.remove(p);
    insert_sorted_pair(&mut b.entries, nm, fp);
    let ghost newents = b.entries@;
    buckets_put_back(m, p, b, Ghost(mid), Ghost(seq_views(key@)), Ghost(nm@), Ghost(seq_views(fp@)), Ghost(orig));
}

/// Reinsert a mutated listing and restore the map's contract. Separated only
/// to keep each proof block small.
#[verifier::rlimit(100)]
fn buckets_put_back(
    m: &mut ReexportedModules,
    p: usize,
    b: RexBucket,
    Ghost(mid): Ghost<Seq<RexBucket>>,
    Ghost(kv): Ghost<Seq<Seq<char>>>,
    Ghost(nmv): Ghost<Seq<char>>,
    Ghost(fpv): Ghost<Seq<Seq<char>>>,
    Ghost(orig): Ghost<Seq<RexBucket>>,
)
    requires
        0 <= (p as int) < mid.len(),
        old(m).buckets@ == mid.remove(p as int),
        seq_views(b.key@) == seq_views(mid[p as int].key@),
        seq_views(mid[p as int].key@) == kv,
        b.key@ == mid[p as int].key@,
        // `mid` is well formed
        forall|i: int, j: int|
            0 <= i < j < mid.len() ==> plex_lt(
                seq_views(#[trigger] mid[i].key@),
                seq_views(#[trigger] mid[j].key@),
            ),
        forall|i: int, a2: int, b2: int|
            0 <= i < mid.len() && 0 <= a2 < b2 < mid[i].entries@.len() ==> pair_lt(
                pair_view(#[trigger] mid[i].entries@[a2]),
                pair_view(#[trigger] mid[i].entries@[b2]),
            ),
        // the mutated listing is sorted and holds the old pairs plus the new
        forall|a2: int, b2: int|
            0 <= a2 < b2 < b.entries@.len() ==> pair_lt(
                pair_view(#[trigger] b.entries@[a2]),
                pair_view(#[trigger] b.entries@[b2]),
            ),
        forall|n2: Seq<char>, p2: Seq<Seq<char>>|
            #[trigger] pairs_contain(b.entries@, n2, p2) == (pairs_contain(
                mid[p as int].entries@,
                n2,
                p2,
            ) || (n2 == nmv && p2 == fpv)),
        // how `mid` relates to the map before the upsert
        forall|k: Seq<Seq<char>>|
            #[trigger] rex_has_key(mid, k) == (rex_has_key(orig, k) || k == kv),
        forall|k: Seq<Seq<char>>, n2: Seq<char>, p2: Seq<Seq<char>>|
            #[trigger] rex_member(mid, k, n2, p2) == rex_member(orig, k, n2, p2),
    ensures
        final(m).wf(),
        forall|k: Seq<Seq<char>>|
            #[trigger] rex_has_key(final(m).buckets@, k) == (rex_has_key(orig, k) || k == kv),
        forall|k: Seq<Seq<char>>, n2: Seq<char>, p2: Seq<Seq<char>>|
            #[trigger] rex_member(final(m).buckets@, k, n2, p2) == (rex_member(orig, k, n2, p2)
                || (k == kv && n2 == nmv && p2 == fpv)),
{
    m.buckets.insert(p, b);
    proof {
        let t = m.buckets@;
        let r = mid.remove(p as int);
        assert(t.len() == mid.len());
        assert forall|i: int| 0 <= i < t.len() && i != p implies t[i] == mid[i] by {
            if i < p {
                assert(t[i] == r[i]);
                assert(r[i] == mid[i]);
            } else {
                assert(t[i] == r[i - 1]);
                assert(r[i - 1] == mid[i]);
            }
        }
        assert forall|i: int| 0 <= i < t.len() implies seq_views(t[i].key@) == seq_views(
            mid[i].key@,
        ) by {}
        assert(m.wf());
        assert forall|k: Seq<Seq<char>>|
            #[trigger] rex_has_key(t, k) == (rex_has_key(orig, k) || k == kv) by {
            if rex_has_key(t, k) {
                let i = choose|i: int| 0 <= i < t.len() && seq_views(#[trigger] t[i].key@) == k;
                assert(seq_views(mid[i].key@) == k);
                assert(rex_has_key(mid, k));
            }
            if rex_has_key(mid, k) {
                let i = choose|i: int| 0 <= i < mid.len() && seq_views(#[trigger] mid[i].key@) == k;
                assert(seq_views(t[i].key@) == k);
                assert(rex_has_key(t, k));
            }
        }
        assert forall|k: Seq<Seq<char>>, n2: Seq<char>, p2: Seq<Seq<char>>|
            #[trigger] rex_member(t, k, n2, p2) == (rex_member(orig, k, n2, p2) || (k == kv && n2
                == nmv && p2 == fpv)) by {
            if rex_member(t, k, n2, p2) {
                let i = choose|i: int|
                    0 <= i < t.len() && seq_views(#[trigger] t[i].key@) == k && pairs_contain(
                        t[i].entries@,
                        n2,
                        p2,
                    );
                if i == p {
                    if pairs_contain(mid[p as int].entries@, n2, p2) {
                        assert(rex_member(mid, k, n2, p2));
                    } else {
                        assert(n2 == nmv && p2 == fpv && k == kv);
                    }
                } else {
                    assert(t[i] == mid[i]);
                    assert(rex_member(mid, k, n2, p2));
                }
            }
            if rex_member(orig, k, n2, p2) {
                assert(rex_member(mid, k, n2, p2));
                let i = choose|i: int|
                    0 <= i < mid.len() && seq_views(#[trigger] mid[i].key@) == k && pairs_contain(
                        mid[i].entries@,
                        n2,
                        p2,
                    );
                if i == p {
                    assert(pairs_contain(t[p as int].entries@, n2, p2));
                    assert(seq_views(t[p as int].key@) == k);
                } else {
                    assert(t[i] == mid[i]);
                    assert(seq_views(t[i].key@) == k && pairs_contain(t[i].entries@, n2, p2));
                }
                assert(rex_member(t, k, n2, p2));
            }
            if k == kv && n2 == nmv && p2 == fpv {
                assert(pairs_contain(t[p as int].entries@, n2, p2));
                assert(seq_views(t[p as int].key@) == k);
                assert(rex_member(t, k, n2, p2));
            }
        }
    }
}


/// The module listed by a single re-export of `tid`: the target must be a
/// named module with a recorded path.
pub open spec fn spec_single_source(
    store: &ItemStore,
    tid: u64,
    nm: Seq<char>,
    fp: Seq<Seq<char>>,
) -> bool {
    match spec_assoc(store.items@, tid) {
        Some(imp) => imp.kind == ItemKind::Module && (match imp.name {
            Some(n) => n@ == nm,
            None => false,
        }) && (match spec_assoc(store.paths@, tid) {
            Some(pe) => fp == seq_views(pe.segments@),
            None => false,
        }),
        None => false,
    }
}

/// A submodule listed out of a wildcard's source module: a policy-passing,
/// named module member with a recorded path.
pub open spec fn spec_listed_submodule(
    store: &ItemStore,
    inc: bool,
    sid: u64,
    nm: Seq<char>,
    fp: Seq<Seq<char>>,
) -> bool {
    match spec_assoc(store.items@, sid) {
        Some(s) => s.kind == ItemKind::Module && crate::store::spec_passes_policy(s, inc) && (match s.name {
            Some(n) => n@ == nm,
            None => false,
        }) && (match spec_assoc(store.paths@, sid) {
            Some(pe) => fp == seq_views(pe.segments@),
            None => false,
        }),
        None => false,
    }
}

/// The modules listed through a wildcard re-export of `tid`.
pub open spec fn spec_glob_source(
    store: &ItemStore,
    inc: bool,
    tid: u64,
    nm: Seq<char>,
    fp: Seq<Seq<char>>,
) -> bool {
    match spec_assoc(store.items@, tid) {
        Some(imp) => imp.kind == ItemKind::Module && exists|j: int|
            0 <= j < imp.members@.len() && spec_listed_submodule(
                store,
                inc,
                #[trigger] imp.members@[j],
                nm,
                fp,
            ),
        None => false,
    }
}

/// What one use item contributes to its module's re-export listing.
pub open spec fn spec_use_module_source(
    store: &ItemStore,
    inc: bool,
    uid: u64,
    nm: Seq<char>,
    fp: Seq<Seq<char>>,
) -> bool {
    spec_is_visible_use(store, inc, uid) && match spec_assoc(store.items@, uid) {
        Some(u) => match u.target {
            Some(tid) => if u.is_glob {
                spec_glob_source(store, inc, tid, nm, fp)
            } else {
                spec_single_source(store, tid, nm, fp)
            },
            None => false,
        },
        None => false,
    }
}

/// Contribution of the first `n` members of a module.
pub open spec fn rex_upto(
    store: &ItemStore,
    inc: bool,
    mid: u64,
    nm: Seq<char>,
    fp: Seq<Seq<char>>,
    n: int,
) -> bool {
    exists|a: int|
        0 <= a < n && spec_use_module_source(
            store,
            inc,
            #[trigger] spec_module_members(store, mid)[a],
            nm,
            fp,
        )
}

/// A pair listed by some module with path `k`.
pub open spec fn spec_reexported_module(
    store: &ItemStore,
    inc: bool,
    k: Seq<Seq<char>>,
    nm: Seq<char>,
    fp: Seq<Seq<char>>,
) -> bool {
    exists|mid: u64|
        #[trigger] spec_module_at(store, mid, k) && rex_upto(
            store,
            inc,
            mid,
            nm,
            fp,
            spec_module_members(store, mid).len() as int,
        )
}

/// List the submodules a wildcard re-export publishes.
fn rex_add_glob(
    store: &ItemStore,
    inc: bool,
    m: &mut ReexportedModules,
    key: &Vec<String>,
    src_members: &Vec<u64>,
)
    requires
        old(m).wf(),
    ensures
        final(m).wf(),
        forall|k: Seq<Seq<char>>|
            #[trigger] rex_has_key(final(m).buckets@, k) == (rex_has_key(old(m).buckets@, k) || (k
                == seq_views(key@) && exists|n2: Seq<char>, p2: Seq<Seq<char>>, j: int|
                0 <= j < src_members@.len() && #[trigger] spec_listed_submodule(
                    store,
                    inc,
                    src_members@[j],
                    n2,
                    p2,
                ))),
        forall|k: Seq<Seq<char>>, n2: Seq<char>, p2: Seq<Seq<char>>|
            #[trigger] rex_member(final(m).buckets@, k, n2, p2) == (rex_member(
                old(m).buckets@,
                k,
                n2,
                p2,
            ) || (k == seq_views(key@) && exists|j: int|
                0 <= j < src_members@.len() && spec_listed_submodule(
                    store,
                    inc,
                    #[trigger] src_members@[j],
                    n2,
                    p2,
                ))),
{
    let ghost kv = seq_views(key@);
    let mut i: usize = 0;
    while i < src_members.len()
        invariant
            i <= src_members@.len(),
            kv == seq_views(key@),
            m.wf(),
            forall|k: Seq<Seq<char>>|
                #[trigger] rex_has_key(m.buckets@, k) == (rex_has_key(old(m).buckets@, k) || (k
                    == kv && exists|n2: Seq<char>, p2: Seq<Seq<char>>, j: int|
                    0 <= j < i && #[trigger] spec_listed_submodule(
                        store,
                        inc,
                        src_members@[j],
                        n2,
                        p2,
                    ))),
            forall|k: Seq<Seq<char>>, n2: Seq<char>, p2: Seq<Seq<char>>|
                #[trigger] rex_member(m.buckets@, k, n2, p2) == (rex_member(
                    old(m).buckets@,
                    k,
                    n2,
                    p2,
                ) || (k == kv && exists|j: int|
                    0 <= j < i && spec_listed_submodule(
                        store,
                        inc,
                        #[trigger] src_members@[j],
                        n2,
                        p2,
                    ))),
        decreases src_members@.len() - i,
    {
        let sid = src_members[i];
        proof {
            assert(src_members@[i as int] == sid);
        }
        let mut listed: Option<(String, Vec<String>)> = None;
        match store.find_item(sid) {
            Some(s) => {
                if matches!(s.kind, ItemKind::Module) && (inc || crate::store::is_public(s)) {
                    match &s.name {
                        Some(n) => {
                            match store.find_path(sid) {
                                Some(pe) => {
                                    listed = Some((n.clone(), clone_segments(&pe.segments)));
                                },
                                None => {},
                            }
                        },
                        None => {},
                    }
                }
            },
            None => {},
        }
        let ghost inext: int = i + 1;
        match listed {
            Some(pair) => {
                proof {
                    assert(spec_listed_submodule(store, inc, sid, pair.0@, seq_views(pair.1@)));
                }
                add_rex_pair(m, key, pair.0.as_str(), &pair.1);
                proof {
                    // a pair listed by `sid` is exactly the one just added:
                    // name and path are determined by the lookups
                    assert forall|n2: Seq<char>, p2: Seq<Seq<char>>|
                        spec_listed_submodule(store, inc, sid, n2, p2) implies (n2 == pair.0@ && p2
                        == seq_views(pair.1@)) by {}
                    assert forall|n2: Seq<char>, p2: Seq<Seq<char>>, j: int|
                        0 <= j < inext && #[trigger] spec_listed_submodule(
                            store,
                            inc,
                            src_members@[j],
                            n2,
                            p2,
                        ) implies ((exists|j2: int|
                        0 <= j2 < i && #[trigger] spec_listed_submodule(
                            store,
                            inc,
                            src_members@[j2],
                            n2,
                            p2,
                        )) || (n2 == pair.0@ && p2 == seq_views(pair.1@))) by {
                        if j < i {
                            assert(exists|j2: int|
                                0 <= j2 < i && #[trigger] spec_listed_submodule(
                                    store,
                                    inc,
                                    src_members@[j2],
                                    n2,
                                    p2,
                                ));
                        } else {
                            assert(src_members@[j] == sid);
                        }
                    }
                    assert forall|n2: Seq<char>, p2: Seq<Seq<char>>, j: int|
                        0 <= j < i && #[trigger] spec_listed_submodule(
                            store,
                            inc,
                            src_members@[j],
                            n2,
                            p2,
                        ) implies (exists|j2: int|
                        0 <= j2 < inext && #[trigger] spec_listed_submodule(
                            store,
                            inc,
                            src_members@[j2],
                            n2,
                            p2,
                        )) by {
                        assert(0 <= j < inext && spec_listed_submodule(
                            store,
                            inc,
                            src_members@[j],
                            n2,
                            p2,
                        ));
                    }
                    assert(spec_listed_submodule(store, inc, src_members@[i as int], pair.0@,
                        seq_views(pair.1@)));
                    assert(exists|j2: int|
                        0 <= j2 < inext && #[trigger] spec_listed_submodule(
                            store,
                            inc,
                            src_members@[j2],
                            pair.0@,
                            seq_views(pair.1@),
                        ));
                }
            },
            None => {
                proof {
                    assert forall|n2: Seq<char>, p2: Seq<Seq<char>>|
                        !spec_listed_submodule(store, inc, sid, n2, p2) by {}
                    assert forall|n2: Seq<char>, p2: Seq<Seq<char>>, j: int|
                        0 <= j < inext && #[trigger] spec_listed_submodule(
                            store,
                            inc,
                            src_members@[j],
                            n2,
                            p2,
                        ) implies (exists|j2: int|
                        0 <= j2 < i && #[trigger] spec_listed_submodule(
                            store,
                            inc,
                            src_members@[j2],
                            n2,
                            p2,
                        )) by {
                        if j == i {
                            assert(src_members@[j] == sid);
                        } else {
                            assert(0 <= j < i && spec_listed_submodule(
                                store,
                                inc,
                                src_members@[j],
                                n2,
                                p2,
                            ));
                        }
                    }
                    assert forall|n2: Seq<char>, p2: Seq<Seq<char>>, j: int|
                        0 <= j < i && #[trigger] spec_listed_submodule(
                            store,
                            inc,
                            src_members@[j],
                            n2,
                            p2,
                        ) implies (exists|j2: int|
                        0 <= j2 < inext && #[trigger] spec_listed_submodule(
                            store,
                            inc,
                            src_members@[j2],
                            n2,
                            p2,
                        )) by {
                        assert(0 <= j < inext && spec_listed_submodule(
                            store,
                            inc,
                            src_members@[j],
                            n2,
                            p2,
                        ));
                    }
                }
            },
        }
        i = i + 1;
    }
}


/// Record one module's re-exported modules.
fn rex_module(
    store: &ItemStore,
    inc: bool,
    m: &mut ReexportedModules,
    mid: u64,
    key: &Vec<String>,
    members: &Vec<u64>,
)
    requires
        old(m).wf(),
        members@ == spec_module_members(store, mid),
    ensures
        final(m).wf(),
        forall|k: Seq<Seq<char>>|
            #[trigger] rex_has_key(final(m).buckets@, k) == (rex_has_key(old(m).buckets@, k) || (k
                == seq_views(key@) && exists|n2: Seq<char>, p2: Seq<Seq<char>>|
                #[trigger] rex_upto(store, inc, mid, n2, p2, members@.len() as int))),
        forall|k: Seq<Seq<char>>, n2: Seq<char>, p2: Seq<Seq<char>>|
            #[trigger] rex_member(final(m).buckets@, k, n2, p2) == (rex_member(
                old(m).buckets@,
                k,
                n2,
                p2,
            ) || (k == seq_views(key@) && rex_upto(store, inc, mid, n2, p2, members@.len() as int))),
{
    let ghost kv = seq_views(key@);
    let mut i: usize = 0;
    while i < members.len()
        invariant
            i <= members@.len(),
            kv == seq_views(key@),
            members@ == spec_module_members(store, mid),
            m.wf(),
            forall|k: Seq<Seq<char>>|
                #[trigger] rex_has_key(m.buckets@, k) == (rex_has_key(old(m).buckets@, k) || (k
                    == kv && exists|n2: Seq<char>, p2: Seq<Seq<char>>|
                    #[trigger] rex_upto(store, inc, mid, n2, p2, i as int))),
            forall|k: Seq<Seq<char>>, n2: Seq<char>, p2: Seq<Seq<char>>|
                #[trigger] rex_member(m.buckets@, k, n2, p2) == (rex_member(
                    old(m).buckets@,
                    k,
                    n2,
                    p2,
                ) || (k == kv && rex_upto(store, inc, mid, n2, p2, i as int))),
        decreases members@.len() - i,
    {
        let uid = members[i];
        let ghost inext: int = i + 1;
        let ghost b0 = m.buckets@;
        proof {
            assert(members@[i as int] == uid);
            assert(spec_module_members(store, mid)[i as int] == uid);
        }
        let mut handled = false;
        let ghost mut added_single: Option<(Seq<char>, Seq<Seq<char>>)> = None;
        let ghost mut glob_src: Option<Seq<u64>> = None;
        match store.find_item(uid) {
            Some(u) => {
                if matches!(u.kind, ItemKind::Reexport) && (inc || crate::store::is_public(u)) {
                    match u.target {
                        Some(tid) => {
                            if u.is_glob {
                                match store.find_item(tid) {
                                    Some(imp) => {
                                        if matches!(imp.kind, ItemKind::Module) {
                                            handled = true;
                                            rex_add_glob(store, inc, m, key, &imp.members);
                                            proof {
                                                glob_src = Some(imp.members@);
                                                assert forall|n2: Seq<char>, p2: Seq<Seq<char>>|
                                                    spec_use_module_source(
                                                        store,
                                                        inc,
                                                        uid,
                                                        n2,
                                                        p2,
                                                    ) == (exists|j: int|
                                                    0 <= j < imp.members@.len() && #[trigger] spec_listed_submodule(
                                                        store,
                                                        inc,
                                                        imp.members@[j],
                                                        n2,
                                                        p2,
                                                    )) by {
                                                    if spec_use_module_source(
                                                        store,
                                                        inc,
                                                        uid,
                                                        n2,
                                                        p2,
                                                    ) {
                                                        let j = choose|j: int|
                                                            0 <= j < imp.members@.len()
                                                                && spec_listed_submodule(
                                                                store,
                                                                inc,
                                                                #[trigger] imp.members@[j],
                                                                n2,
                                                                p2,
                                                            );
                                                        assert(spec_listed_submodule(
                                                            store,
                                                            inc,
                                                            imp.members@[j],
                                                            n2,
                                                            p2,
                                                        ));
                                                    }
                                                    if exists|j: int|
                                                        0 <= j < imp.members@.len()
                                                            && #[trigger] spec_listed_submodule(
                                                            store,
                                                            inc,
                                                            imp.members@[j],
                                                            n2,
                                                            p2,
                                                        ) {
                                                        let j = choose|j: int|
                                                            0 <= j < imp.members@.len()
                                                                && #[trigger] spec_listed_submodule(
                                                                store,
                                                                inc,
                                                                imp.members@[j],
                                                                n2,
                                                                p2,
                                                            );
                                                        assert(spec_listed_submodule(
                                                            store,
                                                            inc,
                                                            #[trigger] imp.members@[j],
                                                            n2,
                                                            p2,
                                                        ));
                                                    }
                                                }
                                            }
                                        }
                                    },
                                    None => {},
                                }
                            } else {
                                match store.find_item(tid) {
                                    Some(imp) => {
                                        if matches!(imp.kind, ItemKind::Module) {
                                            match &imp.name {
                                                Some(n) => {
                                                    match store.find_path(tid) {
                                                        Some(pe) => {
                                                            handled = true;
                                                            let ghost nv = n@;
                                                            let ghost pv = seq_views(pe.segments@);
                                                            proof {
                                                                assert(spec_use_module_source(
                                                                    store,
                                                                    inc,
                                                                    uid,
                                                                    nv,
                                                                    pv,
                                                                ));
                                                                assert forall|
                                                                    n2: Seq<char>,
                                                                    p2: Seq<Seq<char>>,
                                                                |
                                                                    spec_use_module_source(
                                                                        store,
                                                                        inc,
                                                                        uid,
                                                                        n2,
                                                                        p2,
                                                                    ) implies (n2 == nv && p2
                                                                    == pv) by {}
                                                            }
                                                            let segs = clone_segments(
                                                                &pe.segments,
                                                            );
                                                            let name = n.clone();
                                                            proof {
                                                                added_single = Some((nv, pv));
                                                            }
                                                            add_rex_pair(
                                                                m,
                                                                key,
                                                                name.as_str(),
                                                                &segs,
                                                            );
                                                        },
                                                        None => {},
                                                    }
                                                },
                                                None => {},
                                            }
                                        }
                                    },
                                    None => {},
                                }
                            }
                        },
                        None => {},
                    }
                }
            },
            None => {},
        }
        proof {
            if !handled {
                assert forall|n2: Seq<char>, p2: Seq<Seq<char>>|
                    !spec_use_module_source(store, inc, uid, n2, p2) by {}
            }
            assert forall|n2: Seq<char>, p2: Seq<Seq<char>>|
                #[trigger] rex_upto(store, inc, mid, n2, p2, inext) == (rex_upto(
                    store,
                    inc,
                    mid,
                    n2,
                    p2,
                    i as int,
                ) || spec_use_module_source(store, inc, uid, n2, p2)) by {
                if rex_upto(store, inc, mid, n2, p2, inext) {
                    let a = choose|a: int|
                        0 <= a < inext && spec_use_module_source(
                            store,
                            inc,
                            #[trigger] spec_module_members(store, mid)[a],
                            n2,
                            p2,
                        );
                    if a < i {
                        assert(rex_upto(store, inc, mid, n2, p2, i as int));
                    } else {
                        assert(spec_module_members(store, mid)[a] == uid);
                    }
                }
                if rex_upto(store, inc, mid, n2, p2, i as int) {
                    let a = choose|a: int|
                        0 <= a < i && spec_use_module_source(
                            store,
                            inc,
                            #[trigger] spec_module_members(store, mid)[a],
                            n2,
                            p2,
                        );
                    assert(0 <= a < inext && spec_use_module_source(
                        store,
                        inc,
                        spec_module_members(store, mid)[a],
                        n2,
                        p2,
                    ));
                }
                if spec_use_module_source(store, inc, uid, n2, p2) {
                    assert(0 <= (i as int) < inext && spec_use_module_source(
                        store,
                        inc,
                        spec_module_members(store, mid)[i as int],
                        n2,
                        p2,
                    ));
                }
            }
            // restore the membership invariant, then the key invariant
            assert forall|k: Seq<Seq<char>>, n2: Seq<char>, p2: Seq<Seq<char>>|
                #[trigger] rex_member(m.buckets@, k, n2, p2) == (rex_member(
                    old(m).buckets@,
                    k,
                    n2,
                    p2,
                ) || (k == kv && rex_upto(store, inc, mid, n2, p2, inext))) by {}
            assert forall|k: Seq<Seq<char>>|
                #[trigger] rex_has_key(m.buckets@, k) == (rex_has_key(old(m).buckets@, k) || (k
                    == kv && exists|n2: Seq<char>, p2: Seq<Seq<char>>|
                    #[trigger] rex_upto(store, inc, mid, n2, p2, inext))) by {
                if rex_has_key(m.buckets@, k) {
                    if rex_has_key(b0, k) {
                        if !rex_has_key(old(m).buckets@, k) {
                            let (n2, p2) = choose|n2: Seq<char>, p2: Seq<Seq<char>>|
                                #[trigger] rex_upto(store, inc, mid, n2, p2, i as int);
                            assert(rex_upto(store, inc, mid, n2, p2, inext));
                        }
                    } else {
                        // the key appeared in this iteration
                        match glob_src {
                            Some(gm) => {
                                assert(k == kv);
                                let (n2, p2, jx) = choose|
                                    n2: Seq<char>,
                                    p2: Seq<Seq<char>>,
                                    jx: int,
                                |
                                    0 <= jx < gm.len() && #[trigger] spec_listed_submodule(
                                        store,
                                        inc,
                                        gm[jx],
                                        n2,
                                        p2,
                                    );
                                assert(spec_use_module_source(store, inc, uid, n2, p2));
                                assert(rex_upto(store, inc, mid, n2, p2, inext));
                            },
                            None => {
                                match added_single {
                                    Some(pr) => {
                                        assert(k == kv);
                                        assert(spec_use_module_source(
                                            store,
                                            inc,
                                            uid,
                                            pr.0,
                                            pr.1,
                                        ));
                                        assert(rex_upto(store, inc, mid, pr.0, pr.1, inext));
                                    },
                                    None => {
                                        assert(false);
                                    },
                                }
                            },
                        }
                    }
                }
                if rex_has_key(old(m).buckets@, k) {
                    assert(rex_has_key(b0, k));
                    assert(rex_has_key(m.buckets@, k));
                }
                if k == kv && exists|n2: Seq<char>, p2: Seq<Seq<char>>|
                    #[trigger] rex_upto(store, inc, mid, n2, p2, inext) {
                    let (n2, p2) = choose|n2: Seq<char>, p2: Seq<Seq<char>>|
                        #[trigger] rex_upto(store, inc, mid, n2, p2, inext);
                    assert(rex_member(m.buckets@, k, n2, p2));
                    let ix = choose|ix: int|
                        0 <= ix < m.buckets@.len() && seq_views(
                            #[trigger] m.buckets@[ix].key@,
                        ) == k && pairs_contain(m.buckets@[ix].entries@, n2, p2);
                    assert(rex_has_key(m.buckets@, k));
                }
            }
        }
        i = i + 1;
    }
}

/// Keys contributed by the first `n` item-table entries.
pub open spec fn rexed_upto(
    store: &ItemStore,
    inc: bool,
    k: Seq<Seq<char>>,
    nm: Seq<char>,
    fp: Seq<Seq<char>>,
    n: int,
) -> bool {
    exists|a: int|
        0 <= a < n && spec_module_at(store, #[trigger] store.items@[a].0, k) && rex_upto(
            store,
            inc,
            store.items@[a].0,
            nm,
            fp,
            spec_module_members(store, store.items@[a].0).len() as int,
        )
}

/// Build the re-exported-modules map: for every module with a recorded path,
/// what its visible re-exports publish, by name and full path.
pub fn build_reexported_modules(store: &ItemStore, include_private: bool) -> (r: ReexportedModules)
    ensures
        r.wf(),
        forall|k: Seq<Seq<char>>, nm: Seq<char>, fp: Seq<Seq<char>>|
            #[trigger] rex_member(r.buckets@, k, nm, fp) == spec_reexported_module(
                store,
                include_private,
                k,
                nm,
                fp,
            ),
        forall|k: Seq<Seq<char>>|
            #[trigger] rex_has_key(r.buckets@, k) == exists|nm: Seq<char>, fp: Seq<Seq<char>>|
                #[trigger] spec_reexported_module(store, include_private, k, nm, fp),
{
    let inc = include_private;
    let mut m = ReexportedModules { buckets: Vec::new() };
    let n = store.items.len();
    let mut j: usize = 0;
    while j < n
        invariant
            n == store.items@.len(),
            j <= n,
            m.wf(),
            forall|k: Seq<Seq<char>>, nm: Seq<char>, fp: Seq<Seq<char>>|
                #[trigger] rex_member(m.buckets@, k, nm, fp) == rexed_upto(
                    store,
                    inc,
                    k,
                    nm,
                    fp,
                    j as int,
                ),
            forall|k: Seq<Seq<char>>|
                #[trigger] rex_has_key(m.buckets@, k) == exists|nm: Seq<char>, fp: Seq<Seq<char>>|
                    #[trigger] rexed_upto(store, inc, k, nm, fp, j as int),
        decreases n - j,
    {
        let mid = store.items[j].0;
        let ghost jn: int = j + 1;
        let ghost b0 = m.buckets@;
        proof {
            assert(store.items@[j as int].0 == mid);
        }
        let mut acted = false;
        let ghost mut actedkey: Seq<Seq<char>> = Seq::empty();
        match store.find_item(mid) {
            Some(it) => {
                if matches!(it.kind, ItemKind::Module) {
                    match store.find_path(mid) {
                        Some(pe) => {
                            let key = clone_segments(&pe.segments);
                            proof {
                                assert(spec_module_at(store, mid, seq_views(key@)));
                            }
                            rex_module(store, inc, &mut m, mid, &key, &it.members);
                            acted = true;
                            proof {
                                actedkey = seq_views(key@);
                            }
                        },
                        None => {},
                    }
                }
            },
            None => {},
        }
        proof {
            if acted {
                assert(spec_module_at(store, mid, actedkey));
            } else {
                assert forall|k: Seq<Seq<char>>| !spec_module_at(store, mid, k) by {}
            }
            assert forall|k: Seq<Seq<char>>, nm: Seq<char>, fp: Seq<Seq<char>>|
                #[trigger] rex_member(m.buckets@, k, nm, fp) == rexed_upto(
                    store,
                    inc,
                    k,
                    nm,
                    fp,
                    jn,
                ) by {
                if rex_member(m.buckets@, k, nm, fp) {
                    if rex_member(b0, k, nm, fp) {
                        let a = choose|a: int|
                            0 <= a < j && spec_module_at(store, #[trigger] store.items@[a].0, k)
                                && rex_upto(
                                store,
                                inc,
                                store.items@[a].0,
                                nm,
                                fp,
                                spec_module_members(store, store.items@[a].0).len() as int,
                            );
                        assert(rexed_upto(store, inc, k, nm, fp, jn));
                    } else {
                        assert(acted && k == actedkey);
                        assert(spec_module_at(store, store.items@[j as int].0, k));
                        assert(rexed_upto(store, inc, k, nm, fp, jn));
                    }
                }
                if rexed_upto(store, inc, k, nm, fp, jn) {
                    let a = choose|a: int|
                        0 <= a < jn && spec_module_at(store, #[trigger] store.items@[a].0, k)
                            && rex_upto(
                            store,
                            inc,
                            store.items@[a].0,
                            nm,
                            fp,
                            spec_module_members(store, store.items@[a].0).len() as int,
                        );
                    if a < j {
                        assert(rexed_upto(store, inc, k, nm, fp, j as int));
                        assert(rex_member(b0, k, nm, fp));
                    } else {
                        assert(store.items@[a].0 == mid);
                        assert(spec_module_at(store, mid, k));
                        assert(acted && k == actedkey);
                    }
                    assert(rex_member(m.buckets@, k, nm, fp));
                }
            }
            assert forall|k: Seq<Seq<char>>|
                #[trigger] rex_has_key(m.buckets@, k) == exists|nm: Seq<char>, fp: Seq<Seq<char>>|
                    #[trigger] rexed_upto(store, inc, k, nm, fp, jn) by {
                if rex_has_key(m.buckets@, k) {
                    if rex_has_key(b0, k) {
                        let (nm, fp) = choose|nm: Seq<char>, fp: Seq<Seq<char>>|
                            #[trigger] rexed_upto(store, inc, k, nm, fp, j as int);
                        assert(rex_member(b0, k, nm, fp));
                        assert(rex_member(m.buckets@, k, nm, fp));
                        assert(rexed_upto(store, inc, k, nm, fp, jn));
                    } else {
                        assert(acted && k == actedkey);
                        let (nm, fp) = choose|nm: Seq<char>, fp: Seq<Seq<char>>|
                            #[trigger] rex_upto(
                                store,
                                inc,
                                mid,
                                nm,
                                fp,
                                spec_module_members(store, mid).len() as int,
                            );
                        assert(spec_module_at(store, store.items@[j as int].0, k));
                        assert(rexed_upto(store, inc, k, nm, fp, jn));
                    }
                }
                if exists|nm: Seq<char>, fp: Seq<Seq<char>>|
                    #[trigger] rexed_upto(store, inc, k, nm, fp, jn) {
                    let (nm, fp) = choose|nm: Seq<char>, fp: Seq<Seq<char>>|
                        #[trigger] rexed_upto(store, inc, k, nm, fp, jn);
                    assert(rex_member(m.buckets@, k, nm, fp));
                    let ix = choose|ix: int|
                        0 <= ix < m.buckets@.len() && seq_views(
                            #[trigger] m.buckets@[ix].key@,
                        ) == k && pairs_contain(m.buckets@[ix].entries@, nm, fp);
                    assert(rex_has_key(m.buckets@, k));
                }
            }
        }
        j = j + 1;
    }
    proof {
        assert forall|k: Seq<Seq<char>>, nm: Seq<char>, fp: Seq<Seq<char>>|
            #[trigger] spec_reexported_module(store, inc, k, nm, fp) == rexed_upto(
                store,
                inc,
                k,
                nm,
                fp,
                n as int,
            ) by {
            if spec_reexported_module(store, inc, k, nm, fp) {
                let mid = choose|mid: u64|
                    #[trigger] spec_module_at(store, mid, k) && rex_upto(
                        store,
                        inc,
                        mid,
                        nm,
                        fp,
                        spec_module_members(store, mid).len() as int,
                    );
                lemma_assoc_some_iff_contains(store.items@, mid);
                let a = choose|a: int| 0 <= a < store.items@.len() && store.items@[a].0 == mid;
                assert(spec_module_at(store, store.items@[a].0, k) && rex_upto(
                    store,
                    inc,
                    store.items@[a].0,
                    nm,
                    fp,
                    spec_module_members(store, store.items@[a].0).len() as int,
                ));
            }
            if rexed_upto(store, inc, k, nm, fp, n as int) {
                let a = choose|a: int|
                    0 <= a < n && spec_module_at(store, #[trigger] store.items@[a].0, k)
                        && rex_upto(
                        store,
                        inc,
                        store.items@[a].0,
                        nm,
                        fp,
                        spec_module_members(store, store.items@[a].0).len() as int,
                    );
                assert(spec_module_at(store, store.items@[a].0, k));
            }
        }
        assert forall|k: Seq<Seq<char>>|
            #[trigger] rex_has_key(m.buckets@, k) == (exists|nm: Seq<char>, fp: Seq<Seq<char>>|
                #[trigger] spec_reexported_module(store, inc, k, nm, fp)) by {
            if rex_has_key(m.buckets@, k) {
                let (nm, fp) = choose|nm: Seq<char>, fp: Seq<Seq<char>>|
                    #[trigger] rexed_upto(store, inc, k, nm, fp, n as int);
                assert(spec_reexported_module(store, inc, k, nm, fp));
            }
            if exists|nm: Seq<char>, fp: Seq<Seq<char>>|
                #[trigger] spec_reexported_module(store, inc, k, nm, fp) {
                let (nm, fp) = choose|nm: Seq<char>, fp: Seq<Seq<char>>|
                    #[trigger] spec_reexported_module(store, inc, k, nm, fp);
                assert(rexed_upto(store, inc, k, nm, fp, n as int));
                assert(rex_has_key(m.buckets@, k));
            }
        }
    }
    m
}

} // verus!
