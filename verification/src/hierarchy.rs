//! The hierarchy synthesizer: a pure function from bucket keys to the
//! parent-to-children map over module paths. Always recomputed from the
//! bucket keys, never patched incrementally.

use crate::assign::ModuleBuckets;
use crate::strutil::{
    clone_segments, lemma_plex_lt_connex, lemma_plex_lt_irreflexive, lemma_plex_lt_transitive,
    path_eq, path_lt, plex_lt, seq_views,
};
use vstd::prelude::*;

verus! {

/// Derived map from a module path to its direct child module paths.
pub struct ModuleHierarchy {
    /// Parent path to the sorted list of its direct children, sorted by
    /// parent path.
    pub entries: Vec<(Vec<String>, Vec<Vec<String>>)>,
}

/// The direct children of `p` among the bucket keys, in key order.
pub open spec fn spec_children(bkeys: Seq<Seq<Seq<char>>>, p: Seq<Seq<char>>) -> Seq<
    Seq<Seq<char>>,
>
    decreases bkeys.len(),
{
    if bkeys.len() == 0 {
        Seq::empty()
    } else {
        let rest = spec_children(bkeys.drop_first(), p);
        if bkeys[0].len() >= 2 && bkeys[0].drop_last() == p {
            seq![bkeys[0]] + rest
        } else {
            rest
        }
    }
}

/// Whether some bucket key has `p` as its immediate parent.
pub open spec fn spec_is_parent(bkeys: Seq<Seq<Seq<char>>>, p: Seq<Seq<char>>) -> bool {
    exists|i: int| 0 <= i < bkeys.len() && #[trigger] bkeys[i].len() >= 2 && bkeys[i].drop_last() == p
}

/// The key views of a bucket map.
pub open spec fn bucket_key_views(b: &ModuleBuckets) -> Seq<Seq<Seq<char>>> {
    b.buckets@.map_values(|mb: crate::assign::ModuleBucket| seq_views(mb.key@))
}

/// Whether a path occurs in a list of paths, by view.
pub open spec fn paths_contain(keys: Seq<Vec<String>>, p: Seq<Seq<char>>) -> bool {
    exists|i: int| 0 <= i < keys.len() && seq_views(#[trigger] keys[i]@) == p
}

/// Insert a path into a sorted list of distinct paths, if not yet present.
fn insert_sorted_path(keys: &mut Vec<Vec<String>>, k: &Vec<String>)
    requires
        forall|i: int, j: int|
            0 <= i < j < old(keys)@.len() ==> plex_lt(
                seq_views(old(keys)@[i]@),
                seq_views(old(keys)@[j]@),
            ),
    ensures
        forall|i: int, j: int|
            0 <= i < j < final(keys)@.len() ==> plex_lt(
                seq_views(final(keys)@[i]@),
                seq_views(final(keys)@[j]@),
            ),
        forall|p: Seq<Seq<char>>|
            #[trigger] paths_contain(final(keys)@, p) == (paths_contain(old(keys)@, p) || p
                == seq_views(k@)),
{
    let ghost orig = keys@;
    let ghost kv = seq_views(k@);
    let mut p: usize = 0;
    loop
        invariant
            p <= keys@.len(),
            keys@ == orig,
            kv == seq_views(k@),
            forall|i: int, j: int|
                0 <= i < j < orig.len() ==> plex_lt(
                    seq_views(orig[i]@),
                    seq_views(orig[j]@),
                ),
            forall|a: int| 0 <= a < p ==> plex_lt(seq_views(#[trigger] orig[a]@), kv),
        ensures
            keys@ == orig,
            p <= orig.len(),
            forall|a: int| 0 <= a < p ==> plex_lt(seq_views(#[trigger] orig[a]@), kv),
            p < orig.len() ==> !plex_lt(seq_views(orig[p as int]@), kv),
        decreases orig.len() - p,
    {
        if p == keys.len() {
            break;
        }
        if path_lt(&keys[p], k) {
            p = p + 1;
        } else {
            break;
        }
    }
    if p < keys.len() {
        if path_eq(&keys[p], k) {
            proof {
                assert(seq_views(orig[p as int]@) == kv);
                assert forall|q: Seq<Seq<char>>|
                    #[trigger] paths_contain(keys@, q) == (paths_contain(orig, q) || q
                        == kv) by {
                    if q == kv {
                        assert(seq_views(orig[p as int]@) == q);
                        assert(paths_contain(orig, q));
                    }
                }
            }
            return;
        }
    }
    proof {
        if (p as int) < orig.len() {
            lemma_plex_lt_connex(kv, seq_views(orig[p as int]@));
        }
    }
    let kc = clone_segments(k);
    keys.insert(p, kc);
    proof {
        let t = keys@;
        assert(seq_views(t[p as int]@) == kv);
        assert forall|a: int, b: int| 0 <= a < b < t.len() implies plex_lt(
            seq_views(t[a]@),
            seq_views(t[b]@),
        ) by {
            if a < p && b < p {
                assert(t[a] == orig[a] && t[b] == orig[b]);
            } else if a < p && b == p {
                assert(t[a] == orig[a]);
            } else if a < p && b > p {
                assert(t[a] == orig[a] && t[b] == orig[b - 1]);
                if p == b - 1 {
                    lemma_plex_lt_transitive(
                        seq_views(orig[a]@),
                        kv,
                        seq_views(orig[p as int]@),
                    );
                }
            } else if a == p {
                assert(t[b] == orig[b - 1]);
                if b - 1 > p {
                    lemma_plex_lt_transitive(
                        kv,
                        seq_views(orig[p as int]@),
                        seq_views(orig[b - 1]@),
                    );
                }
            } else {
                assert(t[a] == orig[a - 1] && t[b] == orig[b - 1]);
            }
        }
        assert forall|q: Seq<Seq<char>>|
            #[trigger] paths_contain(t, q) == (paths_contain(orig, q) || q == kv) by {
            if paths_contain(t, q) {
                let i = choose|i: int| 0 <= i < t.len() && seq_views(#[trigger] t[i]@) == q;
                if i < p {
                    assert(seq_views(orig[i]@) == q);
                    assert(paths_contain(orig, q));
                } else if i > p {
                    assert(t[i] == orig[i - 1]);
                    assert(seq_views(orig[i - 1]@) == q);
                    assert(paths_contain(orig, q));
                }
            }
            if paths_contain(orig, q) {
                let i = choose|i: int| 0 <= i < orig.len() && seq_views(#[trigger] orig[i]@) == q;
                if i < p {
                    assert(seq_views(t[i]@) == q);
                } else {
                    assert(t[i + 1] == orig[i]);
                    assert(seq_views(t[i + 1]@) == q);
                }
                assert(paths_contain(t, q));
            }
            if q == kv {
                assert(seq_views(t[p as int]@) == q);
                assert(paths_contain(t, q));
            }
        }
    }
}

/// Derive the parent-to-children map from the bucket keys: every key of at
/// least two segments registers itself as a child of the path one segment
/// shorter. Children appear in key order; parents are sorted and distinct.
pub fn build_module_hierarchy(buckets: &ModuleBuckets) -> (r: ModuleHierarchy)
    ensures
        forall|i: int, j: int|
            0 <= i < j < r.entries@.len() ==> plex_lt(
                seq_views(r.entries@[i].0@),
                seq_views(r.entries@[j].0@),
            ),
        forall|p: Seq<Seq<char>>|
            #[trigger] spec_is_parent(bucket_key_views(buckets), p) == (exists|i: int|
                0 <= i < r.entries@.len() && seq_views(#[trigger] r.entries@[i].0@) == p),
        forall|i: int|
            0 <= i < r.entries@.len() ==> (#[trigger] r.entries@[i]).1@.map_values(
                |v: Vec<String>| seq_views(v@),
            ) == spec_children(bucket_key_views(buckets), seq_views(r.entries@[i].0@)),
{
    let ghost bkv = bucket_key_views(buckets);
    // collect the distinct parent paths, sorted
    let mut parents: Vec<Vec<String>> = Vec::new();
    let mut c: usize = 0;
    while c < buckets.buckets.len()
        invariant
            c <= buckets.buckets@.len(),
            bkv == bucket_key_views(buckets),
            bkv.len() == buckets.buckets@.len(),
            forall|i: int, j: int|
                0 <= i < j < parents@.len() ==> plex_lt(
                    seq_views(parents@[i]@),
                    seq_views(parents@[j]@),
                ),
            forall|p: Seq<Seq<char>>|
                #[trigger] paths_contain(parents@, p) == (exists|i: int|
                    0 <= i < c && #[trigger] bkv[i].len() >= 2 && bkv[i].drop_last() == p),
        decreases buckets.buckets@.len() - c,
    {
        proof {
            assert(bkv[c as int] == seq_views(buckets.buckets@[c as int].key@));
        }
        if buckets.buckets[c].key.len() >= 2 {
            let mut par = clone_segments(&buckets.buckets[c].key);
            let ghost before = seq_views(par@);
            par.pop();
            proof {
                assert(seq_views(par@) =~= bkv[c as int].drop_last());
            }
            insert_sorted_path(&mut parents, &par);
            proof {
                let ghost cn: int = c + 1;
                assert forall|p: Seq<Seq<char>>|
                    #[trigger] paths_contain(parents@, p) == (exists|i: int|
                    0 <= i < cn && #[trigger] bkv[i].len() >= 2 && bkv[i].drop_last() == p) by {
                    if exists|i: int|
                        0 <= i < cn && #[trigger] bkv[i].len() >= 2 && bkv[i].drop_last() == p {
                        let i = choose|i: int|
                            0 <= i < cn && #[trigger] bkv[i].len() >= 2 && bkv[i].drop_last() == p;
                        if i < c {
                            assert(exists|i2: int|
                                0 <= i2 < c && #[trigger] bkv[i2].len() >= 2 && bkv[i2].drop_last()
                                    == p);
                        } else {
                            assert(p == seq_views(par@));
                        }
                    }
                    if paths_contain(parents@, p) && !(p == seq_views(par@)) {
                        let i = choose|i: int|
                            0 <= i < c && #[trigger] bkv[i].len() >= 2 && bkv[i].drop_last() == p;
                        assert(0 <= i < cn && bkv[i].len() >= 2 && bkv[i].drop_last() == p);
                    }
                    if p == seq_views(par@) {
                        assert(0 <= (c as int) < cn && bkv[c as int].len() >= 2 && bkv[
                            c as int].drop_last() == p);
                    }
                }
            }
        } else {
            proof {
                let ghost cn: int = c + 1;
                assert forall|p: Seq<Seq<char>>|
                    #[trigger] paths_contain(parents@, p) == (exists|i: int|
                    0 <= i < cn && #[trigger] bkv[i].len() >= 2 && bkv[i].drop_last() == p) by {
                    if exists|i: int|
                        0 <= i < cn && #[trigger] bkv[i].len() >= 2 && bkv[i].drop_last() == p {
                        let i = choose|i: int|
                            0 <= i < cn && #[trigger] bkv[i].len() >= 2 && bkv[i].drop_last() == p;
                        assert(i < c);
                        assert(exists|i2: int|
                            0 <= i2 < c && #[trigger] bkv[i2].len() >= 2 && bkv[i2].drop_last()
                                == p);
                    }
                    if paths_contain(parents@, p) {
                        let i = choose|i: int|
                            0 <= i < c && #[trigger] bkv[i].len() >= 2 && bkv[i].drop_last() == p;
                        assert(0 <= i < cn && bkv[i].len() >= 2 && bkv[i].drop_last() == p);
                    }
                }
            }
        }
        c = c + 1;
    }
    // for each parent, gather its children in key order
    let mut entries: Vec<(Vec<String>, Vec<Vec<String>>)> = Vec::new();
    let mut e: usize = 0;
    while e < parents.len()
        invariant
            e <= parents@.len(),
            bkv == bucket_key_views(buckets),
            bkv.len() == buckets.buckets@.len(),
            entries@.len() == e,
            forall|i: int, j: int|
                0 <= i < j < parents@.len() ==> plex_lt(
                    seq_views(parents@[i]@),
                    seq_views(parents@[j]@),
                ),
            forall|i: int|
                0 <= i < e ==> seq_views(#[trigger] entries@[i].0@) == seq_views(parents@[i]@),
            forall|i: int|
                0 <= i < e ==> (#[trigger] entries@[i]).1@.map_values(
                    |v: Vec<String>| seq_views(v@),
                ) == spec_children(bkv, seq_views(entries@[i].0@)),
        decreases parents@.len() - e,
    {
        let pkey = clone_segments(&parents[e]);
        let ghost pv = seq_views(pkey@);
        let mut children: Vec<Vec<String>> = Vec::new();
        let mut b: usize = 0;
        proof {
            assert(bkv.skip(0) =~= bkv);
            assert(children@.map_values(|v: Vec<String>| seq_views(v@)) =~= Seq::<
                Seq<Seq<char>>,
            >::empty());
            assert(spec_children(bkv, pv) =~= children@.map_values(|v: Vec<String>| seq_views(v@))
                + spec_children(bkv.skip(0), pv));
        }
        while b < buckets.buckets.len()
            invariant
                b <= buckets.buckets@.len(),
                bkv == bucket_key_views(buckets),
                bkv.len() == buckets.buckets@.len(),
                pv == seq_views(pkey@),
                spec_children(bkv, pv) =~= children@.map_values(|v: Vec<String>| seq_views(v@))
                    + spec_children(bkv.skip(b as int), pv),
            decreases buckets.buckets@.len() - b,
        {
            proof {
                assert(bkv.skip(b as int)[0] == bkv[b as int]);
                assert(bkv[b as int] == seq_views(buckets.buckets@[b as int].key@));
                assert(bkv.skip(b as int).drop_first() =~= bkv.skip(b + 1));
            }
            let bkey = &buckets.buckets[b].key;
            let mut is_child = false;
            if bkey.len() >= 2 {
                let mut par2 = clone_segments(bkey);
                par2.pop();
                proof {
                    assert(seq_views(par2@) =~= bkv[b as int].drop_last());
                }
                if path_eq(&par2, &pkey) {
                    is_child = true;
                }
                proof {
                    assert(is_child == (bkv[b as int].len() >= 2 && bkv[b as int].drop_last()
                        == pv));
                }
            } else {
                proof {
                    assert(!(bkv[b as int].len() >= 2));
                }
            }
            if is_child {
                let kc = clone_segments(bkey);
                let ghost kcv = seq_views(kc@);
                let ghost cv0 = children@.map_values(|v: Vec<String>| seq_views(v@));
                children.push(kc);
                proof {
                    assert(children@.map_values(|v: Vec<String>| seq_views(v@)) =~= cv0.push(kcv));
                    assert(spec_children(bkv.skip(b as int), pv) =~= seq![bkv[b as int]]
                        + spec_children(bkv.skip(b + 1), pv));
                }
            } else {
                proof {
                    assert(spec_children(bkv.skip(b as int), pv) =~= spec_children(
                        bkv.skip(b + 1),
                        pv,
                    ));
                }
            }
            b = b + 1;
        }
        proof {
            assert(bkv.skip(bkv.len() as int).len() == 0);
            assert(spec_children(bkv.skip(bkv.len() as int), pv) =~= Seq::<Seq<Seq<char>>>::empty());
            assert(spec_children(bkv, pv) =~= children@.map_values(|v: Vec<String>| seq_views(v@)));
        }
        let ghost en0 = entries@;
        entries.push((pkey, children));
        proof {
            assert(entries@[e as int].0@ == entries@[e as int].0@);
            assert(seq_views(entries@[e as int].0@) == pv);
        }
        e = e + 1;
    }
    proof {
        assert forall|p: Seq<Seq<char>>|
            #[trigger] paths_contain(parents@, p) == spec_is_parent(bkv, p) by {
            if paths_contain(parents@, p) {
                let i = choose|i: int|
                    0 <= i < c && #[trigger] bkv[i].len() >= 2 && bkv[i].drop_last() == p;
                assert(0 <= i < bkv.len() && bkv[i].len() >= 2 && bkv[i].drop_last() == p);
            }
            if spec_is_parent(bkv, p) {
                let i = choose|i: int|
                    0 <= i < bkv.len() && #[trigger] bkv[i].len() >= 2 && bkv[i].drop_last() == p;
                assert(exists|i2: int|
                    0 <= i2 < c && #[trigger] bkv[i2].len() >= 2 && bkv[i2].drop_last() == p);
            }
        }
    }
    let ghost ev = entries@;
    let h = ModuleHierarchy { entries };
    proof {
        assert(h.entries@ == ev);
        assert forall|p: Seq<Seq<char>>|
            #[trigger] spec_is_parent(bkv, p) == (exists|i: int|
            0 <= i < h.entries@.len() && seq_views(#[trigger] h.entries@[i].0@) == p) by {
            if spec_is_parent(bkv, p) {
                assert(paths_contain(parents@, p));
                let i = choose|i: int|
                    0 <= i < parents@.len() && seq_views(#[trigger] parents@[i]@) == p;
                assert(seq_views(ev[i].0@) == p);
                assert(seq_views(h.entries@[i].0@) == p);
            }
            if exists|i: int|
                0 <= i < h.entries@.len() && seq_views(#[trigger] h.entries@[i].0@) == p {
                let i = choose|i: int|
                    0 <= i < h.entries@.len() && seq_views(#[trigger] h.entries@[i].0@) == p;
                assert(seq_views(ev[i].0@) == p);
                assert(seq_views(parents@[i]@) == p);
                assert(paths_contain(parents@, p));
            }
        }
    }
    h
}

} // verus!
