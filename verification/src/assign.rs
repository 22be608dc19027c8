//! The module assigner: buckets items into owning modules by path, expands
//! wildcard re-exports into their target module's bucket, and synthesizes a
//! bucket for every ancestor module so that no page is missing.
//!
//! Bucket keys are kept strictly sorted, and each bucket's item list is kept
//! strictly sorted by item name (with the id as tie-break) and free of
//! duplicate ids, so the whole assignment is a canonical function of the
//! input: re-running it can only produce identical contents.

use crate::reexport::{resolve_reexport_chain, spec_resolve_chain};
use crate::store::{
    Item, ItemKind, ItemStore, PathEntry, Visibility, can_format_item, is_public,
    lemma_assoc_some_iff_contains, spec_assoc, spec_passes_policy, spec_renderable,
};
use crate::strutil::{
    clone_segments, lemma_lex_lt_connex, lemma_lex_lt_irreflexive, lemma_lex_lt_transitive,
    lemma_plex_lt_connex, lemma_plex_lt_irreflexive, lemma_plex_lt_transitive, lex_lt, path_eq,
    path_lt, plex_lt, seq_views, str_eq, str_lt,
};
use vstd::prelude::*;

verus! {

/// One module's bucket: the module path and the ids it owns.
pub struct ModuleBucket {
    /// Module path segments; the first segment is the project name.
    pub key: Vec<String>,
    /// Ids directly owned by the module, sorted by item name then id.
    pub item_ids: Vec<u64>,
}

/// The full bucket map, sorted by key.
pub struct ModuleBuckets {
    /// The buckets, with pairwise distinct keys in strictly increasing order.
    pub buckets: Vec<ModuleBucket>,
}

/// The name an item sorts under: its recorded name, or empty.
pub open spec fn spec_name_of(store: &ItemStore, id: u64) -> Seq<char> {
    match spec_assoc(store.items@, id) {
        Some(it) => match it.name {
            Some(n) => n@,
            None => Seq::empty(),
        },
        None => Seq::empty(),
    }
}

/// Bucket-item order: by name, with the id as tie-break.
pub open spec fn id_lt(store: &ItemStore, a: u64, b: u64) -> bool {
    ||| lex_lt(spec_name_of(store, a), spec_name_of(store, b))
    ||| (spec_name_of(store, a) == spec_name_of(store, b) && a < b)
}

pub proof fn lemma_id_lt_irreflexive(store: &ItemStore, a: u64)
    ensures
        !id_lt(store, a, a),
{
    lemma_lex_lt_irreflexive(spec_name_of(store, a));
}

pub proof fn lemma_id_lt_connex(store: &ItemStore, a: u64, b: u64)
    ensures
        id_lt(store, a, b) || id_lt(store, b, a) || a == b,
{
    lemma_lex_lt_connex(spec_name_of(store, a), spec_name_of(store, b));
}

pub proof fn lemma_id_lt_transitive(store: &ItemStore, a: u64, b: u64, c: u64)
    requires
        id_lt(store, a, b),
        id_lt(store, b, c),
    ensures
        id_lt(store, a, c),
{
    let na = spec_name_of(store, a);
    let nb = spec_name_of(store, b);
    let nc = spec_name_of(store, c);
    if lex_lt(na, nb) && lex_lt(nb, nc) {
        lemma_lex_lt_transitive(na, nb, nc);
    }
}

/// Whether some bucket in the list carries the given key.
pub open spec fn seq_has_key(s: Seq<ModuleBucket>, key: Seq<Seq<char>>) -> bool {
    exists|i: int| 0 <= i < s.len() && seq_views(#[trigger] s[i].key@) == key
}

/// Whether some bucket in the list carries the key and holds the id.
pub open spec fn seq_member(s: Seq<ModuleBucket>, key: Seq<Seq<char>>, id: u64) -> bool {
    exists|i: int|
        0 <= i < s.len() && seq_views(#[trigger] s[i].key@) == key && s[i].item_ids@.contains(id)
}

impl ModuleBuckets {
    /// Whether a bucket exists for the given key.
    pub open spec fn spec_has_key(&self, key: Seq<Seq<char>>) -> bool {
        seq_has_key(self.buckets@, key)
    }

    /// Whether the bucket for `key` holds `id`.
    pub open spec fn spec_member(&self, key: Seq<Seq<char>>, id: u64) -> bool {
        seq_member(self.buckets@, key, id)
    }

    /// Keys are pairwise distinct and strictly increasing.
    pub open spec fn keys_sorted(&self) -> bool {
        forall|i: int, j: int|
            0 <= i < j < self.buckets@.len() ==> plex_lt(
                seq_views(self.buckets@[i].key@),
                seq_views(self.buckets@[j].key@),
            )
    }

    /// Every bucket's item list is strictly sorted by name then id.
    pub open spec fn items_sorted(&self, store: &ItemStore) -> bool {
        forall|i: int, a: int, b: int|
            0 <= i < self.buckets@.len() && 0 <= a < b < self.buckets@[i].item_ids@.len()
                ==> id_lt(store, self.buckets@[i].item_ids@[a], self.buckets@[i].item_ids@[b])
    }

    /// Canonical shape: sorted keys and sorted, duplicate-free item lists.
    pub open spec fn wf(&self, store: &ItemStore) -> bool {
        self.keys_sorted() && self.items_sorted(store)
    }
}

/// Elements of a sequence after an insertion: the old ones, plus the new one.
proof fn lemma_insert_contains(s: Seq<u64>, p: int, x: u64, y: u64)
    requires
        0 <= p <= s.len(),
    ensures
        s.insert(p, x).contains(y) == (s.contains(y) || y == x),
{
    let t = s.insert(p, x);
    assert(t[p] == x);
    if s.contains(y) {
        let i = choose|i: int| 0 <= i < s.len() && s[i] == y;
        if i < p {
            assert(t[i] == y);
        } else {
            assert(t[i + 1] == y);
        }
    }
    if t.contains(y) && y != x {
        let i = choose|i: int| 0 <= i < t.len() && t[i] == y;
        if i < p {
            assert(s[i] == y);
        } else {
            assert(i != p);
            assert(s[i - 1] == y);
        }
    }
}

/// Insert an id into a sorted bucket list, keeping it sorted and
/// duplicate-free.
fn insert_sorted_id(store: &ItemStore, ids: &mut Vec<u64>, id: u64)
    requires
        forall|a: int, b: int|
            0 <= a < b < old(ids)@.len() ==> id_lt(store, old(ids)@[a], old(ids)@[b]),
    ensures
        forall|a: int, b: int|
            0 <= a < b < final(ids)@.len() ==> id_lt(store, final(ids)@[a], final(ids)@[b]),
        forall|x: u64|
            final(ids)@.contains(x) == (old(ids)@.contains(x) || x == id),
{
    let ghost orig = ids@;
    let mut p: usize = 0;
    loop
        invariant
            p <= ids@.len(),
            ids@ == orig,
            forall|a: int, b: int| 0 <= a < b < ids@.len() ==> id_lt(store, ids@[a], ids@[b]),
            forall|a: int| 0 <= a < p ==> id_lt(store, ids@[a], id),
        ensures
            p <= orig.len(),
            ids@ == orig,
            forall|a: int| 0 <= a < p ==> id_lt(store, #[trigger] orig[a], id),
            p < orig.len() ==> orig[p as int] != id && !id_lt(store, orig[p as int], id),
        decreases ids@.len() - p,
    {
        if p == ids.len() {
            break;
        }
        let cur = ids[p];
        if cur == id {
            // already present: nothing to do
            proof {
                assert(ids@.contains(id));
            }
            return;
        }
        let lt = id_lt_exec(store, cur, id);
        if !lt {
            break;
        }
        p = p + 1;
    }
    proof {
        if (p as int) < orig.len() {
            lemma_id_lt_connex(store, id, orig[p as int]);
        }
    }
    ids.insert(p, id);
    proof {
        let t = orig.insert(p as int, id);
        assert forall|a: int, b: int| 0 <= a < b < t.len() implies id_lt(store, t[a], t[b]) by {
            let xa = t[a];
            let xb = t[b];
            if a < p && b < p {
                assert(t[a] == orig[a] && t[b] == orig[b]);
            } else if a < p && b == p {
                assert(t[a] == orig[a]);
            } else if a < p && b > p {
                assert(t[a] == orig[a] && t[b] == orig[b - 1]);
                if p < b - 1 {
                    assert(id_lt(store, orig[a], orig[b - 1]));
                } else {
                    // b - 1 == p: orig[p] is the stop element, id < orig[p]
                    assert(id_lt(store, orig[a], id));
                    assert(id_lt(store, id, orig[p as int]));
                    lemma_id_lt_transitive(store, orig[a], id, orig[p as int]);
                }
            } else if a == p {
                assert(t[b] == orig[b - 1]);
                if b - 1 == p {
                    assert(id_lt(store, id, orig[p as int]));
                } else {
                    assert(id_lt(store, id, orig[p as int]));
                    assert(id_lt(store, orig[p as int], orig[b - 1]));
                    lemma_id_lt_transitive(store, id, orig[p as int], orig[b - 1]);
                }
            } else {
                assert(t[a] == orig[a - 1] && t[b] == orig[b - 1]);
            }
        }
        assert forall|x: u64| t.contains(x) == (orig.contains(x) || x == id) by {
            lemma_insert_contains(orig, p as int, id, x);
        }
    }
}

/// Find the bucket with the given key, inserting an empty one at its sorted
/// position when absent; returns its index.
fn bucket_position(buckets: &mut ModuleBuckets, key: &Vec<String>) -> (p: usize)
    requires
        old(buckets).keys_sorted(),
    ensures
        final(buckets).keys_sorted(),
        p < final(buckets).buckets@.len(),
        p <= old(buckets).buckets@.len(),
        seq_views(final(buckets).buckets@[p as int].key@) == seq_views(key@),
        (final(buckets).buckets@ == old(buckets).buckets@) || (final(buckets).buckets@ == old(
            buckets,
        ).buckets@.insert(p as int, final(buckets).buckets@[p as int])
            && final(buckets).buckets@[p as int].item_ids@ == Seq::<u64>::empty()),
{
    let ghost orig = buckets.buckets@;
    let ghost kv = seq_views(key@);
    let mut p: usize = 0;
    loop
        invariant
            p <= buckets.buckets@.len(),
            buckets.buckets@ == orig,
            forall|x: int, y: int|
                0 <= x < y < orig.len() ==> plex_lt(
                    seq_views(orig[x].key@),
                    seq_views(orig[y].key@),
                ),
            kv == seq_views(key@),
            forall|a: int| 0 <= a < p ==> plex_lt(seq_views(#[trigger] orig[a].key@), kv),
        ensures
            buckets.buckets@ == orig,
            p <= orig.len(),
            forall|a: int| 0 <= a < p ==> plex_lt(seq_views(#[trigger] orig[a].key@), kv),
            p < orig.len() ==> !plex_lt(seq_views(orig[p as int].key@), kv),
        decreases orig.len() - p,
    {
        if p == buckets.buckets.len() {
            break;
        }
        if path_lt(&buckets.buckets[p].key, key) {
            p = p + 1;
        } else {
            break;
        }
    }
    if p < buckets.buckets.len() {
        if path_eq(&buckets.buckets[p].key, key) {
            return p;
        }
    }
    proof {
        if (p as int) < orig.len() {
            lemma_plex_lt_connex(kv, seq_views(orig[p as int].key@));
        }
    }
    let nb = ModuleBucket { key: clone_segments(key), item_ids: Vec::new() };
    buckets.buckets.insert(p, nb);
    proof {
        let t = buckets.buckets@;
        assert(t[p as int].item_ids@ =~= Seq::<u64>::empty());
        assert forall|a: int, b: int| 0 <= a < b < t.len() implies plex_lt(
            seq_views(t[a].key@),
            seq_views(t[b].key@),
        ) by {
            if a < p && b < p {
                assert(t[a] == orig[a] && t[b] == orig[b]);
            } else if a < p && b == p {
                assert(t[a] == orig[a]);
            } else if a < p && b > p {
                assert(t[a] == orig[a] && t[b] == orig[b - 1]);
                if p == b - 1 {
                    lemma_plex_lt_transitive(
                        seq_views(orig[a].key@),
                        kv,
                        seq_views(orig[p as int].key@),
                    );
                }
            } else if a == p {
                assert(t[b] == orig[b - 1]);
                if b - 1 > p {
                    lemma_plex_lt_transitive(
                        kv,
                        seq_views(orig[p as int].key@),
                        seq_views(orig[b - 1].key@),
                    );
                }
            } else {
                assert(t[a] == orig[a - 1] && t[b] == orig[b - 1]);
            }
        }
    }
    p
}

/// Key-set and membership effect of inserting one bucket, for one key and id.
proof fn lemma_bucket_insert_effect(
    s: Seq<ModuleBucket>,
    p: int,
    nb: ModuleBucket,
    k: Seq<Seq<char>>,
    id: u64,
)
    requires
        0 <= p <= s.len(),
    ensures
        (exists|i: int|
            0 <= i < s.insert(p, nb).len() && seq_views(s.insert(p, nb)[i].key@) == k) == (
        (exists|i: int| 0 <= i < s.len() && seq_views(#[trigger] s[i].key@) == k)
            || seq_views(nb.key@) == k),
        (exists|i: int|
            0 <= i < s.insert(p, nb).len() && seq_views(s.insert(p, nb)[i].key@) == k
                && s.insert(p, nb)[i].item_ids@.contains(id)) == ((exists|i: int|
            0 <= i < s.len() && seq_views(#[trigger] s[i].key@) == k
                && s[i].item_ids@.contains(id)) || (seq_views(nb.key@) == k
            && nb.item_ids@.contains(id))),
{
    let t = s.insert(p, nb);
    assert(t[p] == nb);
    assert forall|i: int| 0 <= i < s.len() implies #[trigger] s[i] == if i < p {
        t[i]
    } else {
        t[i + 1]
    } by {}
    assert forall|i: int| 0 <= i < t.len() && i != p implies #[trigger] t[i] == if i < p {
        s[i]
    } else {
        s[i - 1]
    } by {}
    if exists|i: int| 0 <= i < t.len() && seq_views(t[i].key@) == k {
        let i = choose|i: int| 0 <= i < t.len() && seq_views(t[i].key@) == k;
        if i != p {
            if i < p {
                assert(seq_views(s[i].key@) == k);
            } else {
                assert(seq_views(s[i - 1].key@) == k);
            }
        }
    }
    if exists|i: int|
        0 <= i < t.len() && seq_views(t[i].key@) == k && t[i].item_ids@.contains(id) {
        let i = choose|i: int|
            0 <= i < t.len() && seq_views(t[i].key@) == k && t[i].item_ids@.contains(id);
        if i != p {
            if i < p {
                assert(seq_views(s[i].key@) == k && s[i].item_ids@.contains(id));
            } else {
                assert(seq_views(s[i - 1].key@) == k && s[i - 1].item_ids@.contains(id));
            }
        }
    }
    if (exists|i: int| 0 <= i < s.len() && seq_views(#[trigger] s[i].key@) == k)
        || seq_views(nb.key@) == k {
        if exists|i: int| 0 <= i < s.len() && seq_views(#[trigger] s[i].key@) == k {
            let i = choose|i: int| 0 <= i < s.len() && seq_views(#[trigger] s[i].key@) == k;
            if i < p {
                assert(seq_views(t[i].key@) == k);
            } else {
                assert(seq_views(t[i + 1].key@) == k);
            }
        } else {
            assert(seq_views(t[p].key@) == k);
        }
    }
    if (exists|i: int|
        0 <= i < s.len() && seq_views(#[trigger] s[i].key@) == k && s[i].item_ids@.contains(id))
        || (seq_views(nb.key@) == k && nb.item_ids@.contains(id)) {
        if exists|i: int|
            0 <= i < s.len() && seq_views(#[trigger] s[i].key@) == k && s[i].item_ids@.contains(
                id,
            ) {
            let i = choose|i: int|
                0 <= i < s.len() && seq_views(#[trigger] s[i].key@) == k
                    && s[i].item_ids@.contains(id);
            if i < p {
                assert(seq_views(t[i].key@) == k && t[i].item_ids@.contains(id));
            } else {
                assert(seq_views(t[i + 1].key@) == k && t[i + 1].item_ids@.contains(id));
            }
        } else {
            assert(seq_views(t[p].key@) == k && t[p].item_ids@.contains(id));
        }
    }
}

/// Ensure a bucket exists for `key`; contents of all buckets are unchanged.
pub fn ensure_bucket(store: &ItemStore, buckets: &mut ModuleBuckets, key: &Vec<String>)
    requires
        old(buckets).wf(store),
    ensures
        final(buckets).wf(store),
        forall|k: Seq<Seq<char>>|
            final(buckets).spec_has_key(k) == (old(buckets).spec_has_key(k) || k == seq_views(
                key@,
            )),
        forall|k: Seq<Seq<char>>, id: u64|
            final(buckets).spec_member(k, id) == old(buckets).spec_member(k, id),
{
    let ghost orig = buckets.buckets@;
    let p = bucket_position(buckets, key);
    proof {
        let t = buckets.buckets@;
        if t != orig {
            assert forall|k: Seq<Seq<char>>|
                buckets.spec_has_key(k) == (old(buckets).spec_has_key(k) || k == seq_views(
                    key@,
                )) by {
                lemma_bucket_insert_effect(orig, p as int, t[p as int], k, 0);
            }
            assert forall|k: Seq<Seq<char>>, id: u64|
                buckets.spec_member(k, id) == old(buckets).spec_member(k, id) by {
                lemma_bucket_insert_effect(orig, p as int, t[p as int], k, id);
            }
            assert forall|i: int, a: int, b2: int|
                0 <= i < t.len() && 0 <= a < b2 < t[i].item_ids@.len() implies id_lt(
                store,
                t[i].item_ids@[a],
                t[i].item_ids@[b2],
            ) by {
                if i < p {
                    assert(t[i] == orig[i]);
                } else if i > p {
                    assert(t[i] == orig[i - 1]);
                }
            }
        } else {
            assert(0 <= p < orig.len() && seq_views(orig[p as int].key@) == seq_views(key@));
            assert(old(buckets).spec_has_key(seq_views(key@)));
        }
    }
}

/// Add `id` to the bucket for `key`, creating the bucket when absent; the
/// bucket stays sorted and free of duplicates, and no other bucket changes.
pub fn add_id_to_bucket(store: &ItemStore, buckets: &mut ModuleBuckets, key: &Vec<String>, id: u64)
    requires
        old(buckets).wf(store),
    ensures
        final(buckets).wf(store),
        forall|k: Seq<Seq<char>>|
            final(buckets).spec_has_key(k) == (old(buckets).spec_has_key(k) || k == seq_views(
                key@,
            )),
        forall|k: Seq<Seq<char>>, x: u64|
            final(buckets).spec_member(k, x) == (old(buckets).spec_member(k, x) || (k == seq_views(
                key@,
            ) && x == id)),
{
    let ghost orig = buckets.buckets@;
    let p = bucket_position(buckets, key);
    let ghost mid = buckets.buckets@;
    proof {
        if mid != orig {
            assert forall|k: Seq<Seq<char>>, x: u64|
                (exists|i: int|
                    0 <= i < mid.len() && seq_views(mid[i].key@) == k) == (old(
                    buckets,
                ).spec_has_key(k) || k == seq_views(key@)) && (exists|i: int|
                    0 <= i < mid.len() && seq_views(mid[i].key@) == k && mid[i].item_ids@.contains(
                        x,
                    )) == old(buckets).spec_member(k, x) by {
                lemma_bucket_insert_effect(orig, p as int, mid[p as int], k, x);
            }
        }
        // `mid` has the same keys as the result will have, and membership of
        // `mid` equals membership of `orig`.
    }
    let mut b = buckets.buckets.remove(p);
    insert_sorted_id(store, &mut b.item_ids, id);
    let ghost newids = b.item_ids@;
    let ghost bkey = seq_views(b.key@);
    buckets.buckets.insert(p, b);
    proof {
        let t = buckets.buckets@;
        let r = mid.remove(p as int);
        assert(p < mid.len());
        assert(t.len() == mid.len());
        assert(t[p as int].item_ids@ == newids);
        assert(t[p as int].key@ == mid[p as int].key@);
        assert(bkey == seq_views(key@));
        assert forall|i: int| 0 <= i < t.len() && i != p implies t[i] == mid[i] by {
            if i < p {
                assert(t[i] == r[i]);
                assert(r[i] == mid[i]);
            } else {
                assert(t[i] == r[i - 1]);
                assert(r[i - 1] == mid[i]);
            }
        }
        // keys are unchanged position by position
        assert forall|i: int| 0 <= i < t.len() implies seq_views(t[i].key@) == seq_views(
            mid[i].key@,
        ) by {}
        assert(buckets.keys_sorted());
        assert forall|i: int, a: int, b2: int|
            0 <= i < t.len() && 0 <= a < b2 < t[i].item_ids@.len() implies id_lt(
            store,
            t[i].item_ids@[a],
            t[i].item_ids@[b2],
        ) by {
            if i != p {
                assert(t[i] == mid[i]);
                if mid != orig {
                    if i < p {
                        assert(mid[i] == orig[i]);
                    } else {
                        assert(mid[i] == orig[i - 1]);
                    }
                }
            }
        }
        // the key set: same as `mid`'s, which is the old one plus `key`
        assert forall|k: Seq<Seq<char>>|
            buckets.spec_has_key(k) == (old(buckets).spec_has_key(k) || k == seq_views(key@)) by {
            if buckets.spec_has_key(k) {
                let i = choose|i: int| 0 <= i < t.len() && seq_views(t[i].key@) == k;
                assert(seq_views(mid[i].key@) == k);
            }
            if exists|i: int| 0 <= i < mid.len() && seq_views(mid[i].key@) == k {
                let i = choose|i: int| 0 <= i < mid.len() && seq_views(mid[i].key@) == k;
                assert(seq_views(t[i].key@) == k);
                assert(buckets.spec_has_key(k));
            }
            if mid != orig {
                lemma_bucket_insert_effect(orig, p as int, mid[p as int], k, id);
            } else {
                if k == seq_views(key@) {
                    assert(0 <= p < orig.len() && seq_views(orig[p as int].key@) == k);
                }
            }
        }
        // membership change, using that keys are pairwise distinct
        assert forall|k: Seq<Seq<char>>, x: u64| buckets.spec_member(k, x) implies (
        old(buckets).spec_member(k, x) || (k == seq_views(key@) && x == id)) by {
            let i = choose|i: int|
                0 <= i < t.len() && seq_views(t[i].key@) == k && t[i].item_ids@.contains(x);
            if i == p {
                assert(newids.contains(x));
                if mid[p as int].item_ids@.contains(x) {
                    assert(mid[p as int].item_ids@.contains(x) && seq_views(mid[p as int].key@)
                        == k);
                }
            } else {
                assert(mid[i].item_ids@.contains(x) && seq_views(mid[i].key@) == k);
            }
        }
        assert forall|k: Seq<Seq<char>>, x: u64|
            (old(buckets).spec_member(k, x) || (k == seq_views(key@) && x
                == id)) implies buckets.spec_member(k, x) by {
            if old(buckets).spec_member(k, x) {
                let i = choose|i: int|
                    0 <= i < orig.len() && seq_views(orig[i].key@) == k
                        && orig[i].item_ids@.contains(x);
                // find the same bucket in `mid`
                if mid == orig {
                    if i == p {
                        assert(t[p as int].item_ids@.contains(x));
                    } else {
                        assert(t[i] == mid[i]);
                        assert(seq_views(t[i].key@) == k && t[i].item_ids@.contains(x));
                    }
                } else {
                    let j = if i < p {
                        i
                    } else {
                        i + 1
                    };
                    assert(mid[j] == orig[i]);
                    if j == p {
                        assert(t[p as int].item_ids@.contains(x));
                    } else {
                        assert(seq_views(t[j].key@) == k && t[j].item_ids@.contains(x));
                    }
                }
            } else {
                assert(t[p as int].item_ids@.contains(id));
                assert(seq_views(t[p as int].key@) == seq_views(key@));
            }
        }
    }
}

/// `a` is a proper ancestor path of `b`.
pub open spec fn is_strict_prefix(a: Seq<Seq<char>>, b: Seq<Seq<char>>) -> bool {
    a.len() < b.len() && a == b.take(a.len() as int)
}

/// `a` is `b` or an ancestor path of `b`.
pub open spec fn is_prefix(a: Seq<Seq<char>>, b: Seq<Seq<char>>) -> bool {
    a.len() <= b.len() && a == b.take(a.len() as int)
}

/// The module that owns an item with this path: all segments but the last, or
/// the single segment itself for a root-level item.
pub open spec fn owner_key(path: Seq<Seq<char>>) -> Seq<Seq<char>> {
    if path.len() > 1 {
        path.drop_last()
    } else {
        path
    }
}

/// Direct assignment: a non-root, policy-passing, renderable item with a path
/// lands in the bucket of its owning module.
pub open spec fn spec_direct(store: &ItemStore, inc: bool, k: Seq<Seq<char>>, id: u64) -> bool {
    &&& id != store.root
    &&& match spec_assoc(store.items@, id) {
        Some(it) => spec_passes_policy(it, inc) && spec_renderable(it.kind),
        None => false,
    }
    &&& match spec_assoc(store.paths@, id) {
        Some(pe) => pe.segments@.len() >= 1 && k == owner_key(seq_views(pe.segments@)),
        None => false,
    }
}

/// A module item whose recorded path is exactly `k`.
pub open spec fn spec_module_at(store: &ItemStore, mid: u64, k: Seq<Seq<char>>) -> bool {
    &&& match spec_assoc(store.items@, mid) {
        Some(m) => m.kind == ItemKind::Module,
        None => false,
    }
    &&& match spec_assoc(store.paths@, mid) {
        Some(pe) => k == seq_views(pe.segments@),
        None => false,
    }
}

/// The member list of a module item; empty when the id is unknown.
pub open spec fn spec_module_members(store: &ItemStore, mid: u64) -> Seq<u64> {
    match spec_assoc(store.items@, mid) {
        Some(m) => m.members@,
        None => Seq::empty(),
    }
}

/// A policy-passing re-export item.
pub open spec fn spec_is_visible_use(store: &ItemStore, inc: bool, id: u64) -> bool {
    match spec_assoc(store.items@, id) {
        Some(u) => u.kind == ItemKind::Reexport && spec_passes_policy(u, inc),
        None => false,
    }
}

/// The module re-exported by a qualifying wildcard re-export `uid` inside
/// module `mid`: the use item must pass the policy, be a wildcard, point
/// somewhere other than its own module, and its chain must resolve to a
/// module item.
pub open spec fn spec_glob_target(store: &ItemStore, inc: bool, mid: u64, uid: u64) -> Option<
    u64,
> {
    match spec_assoc(store.items@, uid) {
        Some(u) => {
            if u.kind == ItemKind::Reexport && spec_passes_policy(u, inc) && u.is_glob {
                match u.target {
                    Some(t) => {
                        if t != mid {
                            match spec_resolve_chain(store, t) {
                                Some(rid) => match spec_assoc(store.items@, rid) {
                                    Some(rm) => if rm.kind == ItemKind::Module {
                                        Some(rid)
                                    } else {
                                        None
                                    },
                                    None => None,
                                },
                                None => None,
                            }
                        } else {
                            None
                        }
                    },
                    None => None,
                }
            } else {
                None
            }
        },
        None => None,
    }
}

/// The ancestor guard: a wildcard's source module must not be a proper
/// ancestor of the destination module, else its bucket would be reprocessed.
pub open spec fn spec_glob_guard(store: &ItemStore, rid: u64, k: Seq<Seq<char>>) -> bool {
    match spec_assoc(store.paths@, rid) {
        Some(rp) => !is_strict_prefix(seq_views(rp.segments@), k),
        None => true,
    }
}

/// An item that a wildcard re-export copies: visible, renderable, and neither
/// a module nor itself a re-export.
pub open spec fn spec_glob_copyable(store: &ItemStore, inc: bool, id: u64) -> bool {
    match spec_assoc(store.items@, id) {
        Some(it) => spec_passes_policy(it, inc) && spec_renderable(it.kind) && it.kind
            != ItemKind::Module && it.kind != ItemKind::Reexport,
        None => false,
    }
}

/// What module `mid` gains from its re-export members: each visible use item
/// itself, and, through a qualifying wildcard, every copyable item of the
/// resolved source module, unless the ancestor guard rejects the edge.
pub open spec fn spec_module_contrib(
    store: &ItemStore,
    inc: bool,
    mid: u64,
    k: Seq<Seq<char>>,
    x: u64,
) -> bool {
    ||| (spec_module_members(store, mid).contains(x) && spec_is_visible_use(store, inc, x))
    ||| exists|uid: u64|
        #[trigger] spec_module_members(store, mid).contains(uid) && match spec_glob_target(
            store,
            inc,
            mid,
            uid,
        ) {
            Some(rid) => spec_glob_guard(store, rid, k) && spec_module_members(
                store,
                rid,
            ).contains(x) && spec_glob_copyable(store, inc, x),
            None => false,
        }
}

/// Assignment through re-exports: some module with path `k` contributes `x`.
pub open spec fn spec_reexported(store: &ItemStore, inc: bool, k: Seq<Seq<char>>, x: u64) -> bool {
    exists|mid: u64|
        #[trigger] spec_module_at(store, mid, k) && spec_module_contrib(store, inc, mid, k, x)
}

/// Full assignment: direct, or through a re-export.
pub open spec fn spec_assigned(store: &ItemStore, inc: bool, k: Seq<Seq<char>>, x: u64) -> bool {
    spec_direct(store, inc, k, x) || spec_reexported(store, inc, k, x)
}

/// A base bucket key: one that received an item, or the recorded path of any
/// module item.
pub open spec fn spec_base_key(store: &ItemStore, inc: bool, k: Seq<Seq<char>>) -> bool {
    ||| exists|x: u64| #[trigger] spec_assigned(store, inc, k, x)
    ||| exists|mid: u64| #[trigger] spec_module_at(store, mid, k)
}

/// A bucket key after ancestor closure: a base key, or any of its non-empty
/// ancestor paths.
pub open spec fn spec_bucket_key(store: &ItemStore, inc: bool, k: Seq<Seq<char>>) -> bool {
    exists|base: Seq<Seq<char>>|
        #[trigger] spec_base_key(store, inc, base) && is_prefix(k, base) && (k.len() >= 1 || k
            == base)
}

/// Proper-ancestor test on segment vectors.
pub fn path_is_strict_prefix(a: &Vec<String>, b: &Vec<String>) -> (r: bool)
    ensures
        r == is_strict_prefix(seq_views(a@), seq_views(b@)),
{
    if a.len() >= b.len() {
        proof {
            assert(seq_views(a@).len() == a@.len());
            assert(seq_views(b@).len() == b@.len());
        }
        return false;
    }
    let mut i: usize = 0;
    while i < a.len()
        invariant
            a@.len() < b@.len(),
            i <= a@.len(),
            forall|j: int| 0 <= j < i ==> a@[j]@ == b@[j]@,
        decreases a@.len() - i,
    {
        if !str_eq(a[i].as_str(), b[i].as_str()) {
            proof {
                let av = seq_views(a@);
                let bv = seq_views(b@);
                if av == bv.take(av.len() as int) {
                    assert(av[i as int] == bv.take(av.len() as int)[i as int]);
                }
            }
            return false;
        }
        i = i + 1;
    }
    proof {
        assert(seq_views(a@) =~~= seq_views(b@).take(a@.len() as int));
    }
    true
}

/// The owning module's key for a path-table entry.
fn owner_key_of(pe: &PathEntry) -> (r: Vec<String>)
    requires
        pe.segments@.len() >= 1,
    ensures
        seq_views(r@) == owner_key(seq_views(pe.segments@)),
{
    let mut key = clone_segments(&pe.segments);
    if key.len() > 1 {
        let ghost before = key@;
        key.pop();
        proof {
            assert(seq_views(key@) =~= seq_views(before).drop_last());
        }
    }
    key
}

/// Copy every copyable item of a wildcard source module into the bucket.
fn assign_glob_copy(
    store: &ItemStore,
    inc: bool,
    buckets: &mut ModuleBuckets,
    key: &Vec<String>,
    src_members: &Vec<u64>,
)
    requires
        old(buckets).wf(store),
    ensures
        final(buckets).wf(store),
        forall|k: Seq<Seq<char>>, x: u64|
            final(buckets).spec_member(k, x) == (old(buckets).spec_member(k, x) || (k == seq_views(
                key@,
            ) && src_members@.contains(x) && spec_glob_copyable(store, inc, x))),
        forall|k: Seq<Seq<char>>|
            final(buckets).spec_has_key(k) == (old(buckets).spec_has_key(k) || k == seq_views(
                key@,
            )),
{
    ensure_bucket(store, buckets, key);
    let ghost kv = seq_views(key@);
    let mut i: usize = 0;
    while i < src_members.len()
        invariant
            i <= src_members@.len(),
            kv == seq_views(key@),
            buckets.wf(store),
            forall|k: Seq<Seq<char>>|
                buckets.spec_has_key(k) == (old(buckets).spec_has_key(k) || k == kv),
            forall|k: Seq<Seq<char>>, x: u64|
                buckets.spec_member(k, x) == (old(buckets).spec_member(k, x) || (k == kv && (
                exists|a: int|
                    0 <= a < i && src_members@[a] == x) && spec_glob_copyable(store, inc, x))),
        decreases src_members@.len() - i,
    {
        let id = src_members[i];
        let copy_it = match store.find_item(id) {
            Some(it) => (inc || is_public(it)) && can_format_item(it) && !matches!(
                it.kind,
                ItemKind::Module,
            ) && !matches!(it.kind, ItemKind::Reexport),
            None => false,
        };
        proof {
            assert(copy_it == spec_glob_copyable(store, inc, id));
        }
        if copy_it {
            add_id_to_bucket(store, buckets, key, id);
        }
        proof {
            assert(src_members@[i as int] == id);
            assert forall|x: u64|
                ((exists|a: int| 0 <= a < i + 1 && src_members@[a] == x) && spec_glob_copyable(
                    store,
                    inc,
                    x,
                )) implies ((exists|a: int| 0 <= a < i && src_members@[a] == x)
                && spec_glob_copyable(store, inc, x)) || (x == id && spec_glob_copyable(
                store,
                inc,
                id,
            )) by {
                let a = choose|a: int| 0 <= a < i + 1 && src_members@[a] == x;
                if a < i {
                    assert(exists|a2: int| 0 <= a2 < i && src_members@[a2] == x);
                }
            }
        }
        i = i + 1;
    }
    proof {
        assert forall|x: u64| src_members@.contains(x) implies (exists|a: int|
            0 <= a < src_members@.len() && src_members@[a] == x) by {}
    }
}

/// What a module has gained after its first `n` members were processed.
pub open spec fn contrib_upto(
    store: &ItemStore,
    inc: bool,
    mid: u64,
    k: Seq<Seq<char>>,
    x: u64,
    n: int,
) -> bool {
    ||| exists|a: int|
        0 <= a < n && #[trigger] spec_module_members(store, mid)[a] == x && spec_is_visible_use(
            store,
            inc,
            x,
        )
    ||| exists|a: int|
        0 <= a < n && match spec_glob_target(
            store,
            inc,
            mid,
            #[trigger] spec_module_members(store, mid)[a],
        ) {
            Some(rid) => spec_glob_guard(store, rid, k) && spec_module_members(
                store,
                rid,
            ).contains(x) && spec_glob_copyable(store, inc, x),
            None => false,
        }
}

/// Record one module's re-export members: the use items themselves, and the
/// items a wildcard re-export copies over.
fn assign_module_reexports(
    store: &ItemStore,
    inc: bool,
    buckets: &mut ModuleBuckets,
    mid: u64,
    key: &Vec<String>,
    members: &Vec<u64>,
)
    requires
        old(buckets).wf(store),
        members@ == spec_module_members(store, mid),
        spec_module_at(store, mid, seq_views(key@)),
    ensures
        final(buckets).wf(store),
        forall|k: Seq<Seq<char>>|
            final(buckets).spec_has_key(k) == (old(buckets).spec_has_key(k) || k == seq_views(
                key@,
            )),
        forall|k: Seq<Seq<char>>, x: u64|
            final(buckets).spec_member(k, x) == (old(buckets).spec_member(k, x) || (k == seq_views(
                key@,
            ) && spec_module_contrib(store, inc, mid, seq_views(key@), x))),
{
    ensure_bucket(store, buckets, key);
    let ghost kv = seq_views(key@);
    let mut i: usize = 0;
    while i < members.len()
        invariant
            i <= members@.len(),
            kv == seq_views(key@),
            members@ == spec_module_members(store, mid),
            spec_module_at(store, mid, kv),
            buckets.wf(store),
            forall|k: Seq<Seq<char>>|
                buckets.spec_has_key(k) == (old(buckets).spec_has_key(k) || k == kv),
            forall|k: Seq<Seq<char>>, x: u64|
                buckets.spec_member(k, x) == (old(buckets).spec_member(k, x) || (k == kv
                    && contrib_upto(store, inc, mid, kv, x, i as int))),
        decreases members@.len() - i,
    {
        let uid = members[i];
        proof {
            assert(members@[i as int] == uid);
        }
        match store.find_item(uid) {
            Some(u) => {
                let visible = inc || is_public(u);
                if matches!(u.kind, ItemKind::Reexport) && visible {
                    proof {
                        assert(spec_is_visible_use(store, inc, uid));
                    }
                    add_id_to_bucket(store, buckets, key, uid);
                    if u.is_glob {
                        match u.target {
                            Some(t) => {
                                if t != mid {
                                    match resolve_reexport_chain(store, t) {
                                        Some(resolved) => {
                                            let rid = resolved.0;
                                            let rit = resolved.1;
                                            if matches!(rit.kind, ItemKind::Module) {
                                                let guard_ok = match store.find_path(rid) {
                                                    Some(rp) => !path_is_strict_prefix(
                                                        &rp.segments,
                                                        key,
                                                    ),
                                                    None => true,
                                                };
                                                proof {
                                                    assert(spec_glob_target(store, inc, mid, uid)
                                                        == Some(rid));
                                                    assert(guard_ok == spec_glob_guard(
                                                        store,
                                                        rid,
                                                        kv,
                                                    ));
                                                }
                                                if guard_ok {
                                                    assign_glob_copy(
                                                        store,
                                                        inc,
                                                        buckets,
                                                        key,
                                                        &rit.members,
                                                    );
                                                    proof {
                                                        assert(rit.members@
                                                            == spec_module_members(store, rid));
                                                    }
                                                }
                                            }
                                        },
                                        None => {},
                                    }
                                }
                            },
                            None => {},
                        }
                    }
                }
            },
            None => {},
        }
        proof {
            assert forall|x: u64| contrib_upto(store, inc, mid, kv, x, i + 1) implies (
            contrib_upto(store, inc, mid, kv, x, i as int) || (x == uid && spec_is_visible_use(
                store,
                inc,
                x,
            )) || (match spec_glob_target(store, inc, mid, uid) {
                Some(rid) => spec_glob_guard(store, rid, kv) && spec_module_members(
                    store,
                    rid,
                ).contains(x) && spec_glob_copyable(store, inc, x),
                None => false,
            })) by {
                if exists|a: int|
                    0 <= a < i + 1 && #[trigger] spec_module_members(store, mid)[a] == x
                        && spec_is_visible_use(store, inc, x) {
                    let a = choose|a: int|
                        0 <= a < i + 1 && #[trigger] spec_module_members(store, mid)[a] == x
                            && spec_is_visible_use(store, inc, x);
                    if a < i {
                        assert(contrib_upto(store, inc, mid, kv, x, i as int));
                    }
                } else {
                    let a = choose|a: int|
                        0 <= a < i + 1 && match spec_glob_target(
                            store,
                            inc,
                            mid,
                            #[trigger] spec_module_members(store, mid)[a],
                        ) {
                            Some(rid) => spec_glob_guard(store, rid, kv)
                                && spec_module_members(store, rid).contains(x)
                                && spec_glob_copyable(store, inc, x),
                            None => false,
                        };
                    if a < i {
                        assert(contrib_upto(store, inc, mid, kv, x, i as int));
                    }
                }
            }
        }
        i = i + 1;
    }
    proof {
        assert forall|x: u64| spec_module_contrib(store, inc, mid, kv, x) implies contrib_upto(
            store,
            inc,
            mid,
            kv,
            x,
            members@.len() as int,
        ) by {
            if spec_module_members(store, mid).contains(x) && spec_is_visible_use(store, inc, x) {
                let a = choose|a: int|
                    0 <= a < spec_module_members(store, mid).len() && spec_module_members(
                        store,
                        mid,
                    )[a] == x;
                assert(spec_module_members(store, mid)[a] == x);
            } else {
                let uid = choose|uid: u64|
                    #[trigger] spec_module_members(store, mid).contains(uid) && match
                    spec_glob_target(store, inc, mid, uid) {
                    Some(rid) => spec_glob_guard(store, rid, kv) && spec_module_members(
                        store,
                        rid,
                    ).contains(x) && spec_glob_copyable(store, inc, x),
                    None => false,
                };
                let a = choose|a: int|
                    0 <= a < spec_module_members(store, mid).len() && spec_module_members(
                        store,
                        mid,
                    )[a] == uid;
                assert(spec_module_members(store, mid)[a] == uid);
            }
        }
        assert forall|x: u64|
            contrib_upto(store, inc, mid, kv, x, members@.len() as int) implies
        spec_module_contrib(store, inc, mid, kv, x) by {
            if exists|a: int|
                0 <= a < members@.len() && #[trigger] spec_module_members(store, mid)[a] == x
                    && spec_is_visible_use(store, inc, x) {
                assert(spec_module_members(store, mid).contains(x));
            } else {
                let a = choose|a: int|
                    0 <= a < members@.len() && match spec_glob_target(
                        store,
                        inc,
                        mid,
                        #[trigger] spec_module_members(store, mid)[a],
                    ) {
                        Some(rid) => spec_glob_guard(store, rid, kv) && spec_module_members(
                            store,
                            rid,
                        ).contains(x) && spec_glob_copyable(store, inc, x),
                        None => false,
                    };
                assert(spec_module_members(store, mid).contains(spec_module_members(
                    store,
                    mid,
                )[a]));
            }
        }
    }
}

/// Some item is directly assigned to `k`.
pub open spec fn spec_direct_key(store: &ItemStore, inc: bool, k: Seq<Seq<char>>) -> bool {
    exists|x: u64| spec_direct(store, inc, k, x)
}

/// Some module item's recorded path is `k`.
pub open spec fn spec_module_key(store: &ItemStore, k: Seq<Seq<char>>) -> bool {
    exists|mid: u64| spec_module_at(store, mid, k)
}

/// Direct assignment restricted to the first `n` item-table entries.
pub open spec fn direct_upto(store: &ItemStore, inc: bool, k: Seq<Seq<char>>, x: u64, n: int) -> bool {
    spec_direct(store, inc, k, x) && exists|a: int|
        0 <= a < n && #[trigger] store.items@[a].0 == x
}

/// Bucket every policy-passing renderable item by its owning module path.
fn assign_direct(store: &ItemStore, inc: bool, buckets: &mut ModuleBuckets)
    requires
        old(buckets).buckets@.len() == 0,
    ensures
        final(buckets).wf(store),
        forall|k: Seq<Seq<char>>, x: u64|
            final(buckets).spec_member(k, x) == spec_direct(store, inc, k, x),
        forall|k: Seq<Seq<char>>|
            final(buckets).spec_has_key(k) == spec_direct_key(store, inc, k),
{
    let n = store.items.len();
    let mut j: usize = 0;
    while j < n
        invariant
            n == store.items@.len(),
            j <= n,
            buckets.wf(store),
            forall|k: Seq<Seq<char>>, x: u64|
                buckets.spec_member(k, x) == direct_upto(store, inc, k, x, j as int),
            forall|k: Seq<Seq<char>>|
                buckets.spec_has_key(k) == exists|x: u64| direct_upto(store, inc, k, x, j as int),
        decreases n - j,
    {
        let id = store.items[j].0;
        let ghost b0 = *buckets;
        let ghost jn: int = j + 1;
        proof {
            assert(store.items@[j as int].0 == id);
        }
        let mut added = false;
        let ghost mut addedkey: Seq<Seq<char>> = Seq::empty();
        if id != store.root {
            if let Some(it) = store.find_item(id) {
                if (inc || is_public(it)) && can_format_item(it) {
                    match store.find_path(id) {
                        Some(pe) => {
                            if pe.segments.len() >= 1 {
                                let key = owner_key_of(pe);
                                proof {
                                    assert(spec_direct(store, inc, seq_views(key@), id));
                                }
                                add_id_to_bucket(store, buckets, &key, id);
                                added = true;
                                proof {
                                    addedkey = seq_views(key@);
                                }
                            }
                        },
                        None => {},
                    }
                }
            }
        }
        proof {
            if added {
                assert(spec_direct(store, inc, addedkey, id));
            }
            assert forall|k: Seq<Seq<char>>, x: u64|
                buckets.spec_member(k, x) == direct_upto(store, inc, k, x, jn) by {
                if buckets.spec_member(k, x) {
                    if b0.spec_member(k, x) {
                        let a = choose|a: int| 0 <= a < j && #[trigger] store.items@[a].0 == x;
                        assert(direct_upto(store, inc, k, x, jn));
                    } else {
                        assert(added && k == addedkey && x == id);
                        assert(direct_upto(store, inc, k, x, jn));
                    }
                }
                if direct_upto(store, inc, k, x, jn) {
                    let a = choose|a: int| 0 <= a < jn && #[trigger] store.items@[a].0 == x;
                    if a < j {
                        assert(direct_upto(store, inc, k, x, j as int));
                        assert(b0.spec_member(k, x));
                    } else {
                        assert(x == id);
                        assert(spec_direct(store, inc, k, id));
                        if !added {
                            assert(!spec_direct(store, inc, k, id));
                        }
                        assert(k == addedkey);
                    }
                    assert(buckets.spec_member(k, x));
                }
            }
            assert forall|k: Seq<Seq<char>>|
                buckets.spec_has_key(k) == exists|x: u64|
                direct_upto(store, inc, k, x, jn) by {
                if buckets.spec_has_key(k) {
                    if b0.spec_has_key(k) {
                        let x = choose|x: u64| direct_upto(store, inc, k, x, j as int);
                        let a = choose|a: int| 0 <= a < j && #[trigger] store.items@[a].0 == x;
                        assert(direct_upto(store, inc, k, x, jn));
                    } else {
                        assert(added && k == addedkey);
                        assert(direct_upto(store, inc, k, id, jn));
                    }
                }
                if exists|x: u64| direct_upto(store, inc, k, x, jn) {
                    let x = choose|x: u64| direct_upto(store, inc, k, x, jn);
                    let a = choose|a: int| 0 <= a < jn && #[trigger] store.items@[a].0 == x;
                    if a < j {
                        assert(direct_upto(store, inc, k, x, j as int));
                        assert(b0.spec_has_key(k));
                    } else {
                        assert(x == id);
                        assert(spec_direct(store, inc, k, id));
                        if !added {
                            assert(!spec_direct(store, inc, k, id));
                        }
                        assert(k == addedkey);
                    }
                    assert(buckets.spec_has_key(k));
                }
            }
        }
        j = j + 1;
    }
    proof {
        assert forall|k: Seq<Seq<char>>, x: u64|
            spec_direct(store, inc, k, x) implies direct_upto(store, inc, k, x, n as int) by {
            lemma_assoc_some_iff_contains(store.items@, x);
        }
    }
}

/// Re-export assignment restricted to the first `n` item-table entries.
pub open spec fn reexported_upto(
    store: &ItemStore,
    inc: bool,
    k: Seq<Seq<char>>,
    x: u64,
    n: int,
) -> bool {
    exists|a: int|
        0 <= a < n && spec_module_at(store, #[trigger] store.items@[a].0, k)
            && spec_module_contrib(store, inc, store.items@[a].0, k, x)
}

/// Module keys restricted to the first `n` item-table entries.
pub open spec fn module_key_upto(store: &ItemStore, k: Seq<Seq<char>>, n: int) -> bool {
    exists|a: int| 0 <= a < n && spec_module_at(store, #[trigger] store.items@[a].0, k)
}

/// Walk every module's member list: record each visible re-export in its
/// module's bucket, expand qualifying wildcard re-exports, and give every
/// module with a recorded path a bucket of its own.
fn assign_reexports(store: &ItemStore, inc: bool, buckets: &mut ModuleBuckets)
    requires
        old(buckets).wf(store),
    ensures
        final(buckets).wf(store),
        forall|k: Seq<Seq<char>>|
            final(buckets).spec_has_key(k) == (old(buckets).spec_has_key(k) || spec_module_key(
                store,
                k,
            )),
        forall|k: Seq<Seq<char>>, x: u64|
            final(buckets).spec_member(k, x) == (old(buckets).spec_member(k, x) || spec_reexported(
                store,
                inc,
                k,
                x,
            )),
{
    let n = store.items.len();
    let mut j: usize = 0;
    while j < n
        invariant
            n == store.items@.len(),
            j <= n,
            buckets.wf(store),
            forall|k: Seq<Seq<char>>|
                buckets.spec_has_key(k) == (old(buckets).spec_has_key(k) || module_key_upto(
                    store,
                    k,
                    j as int,
                )),
            forall|k: Seq<Seq<char>>, x: u64|
                buckets.spec_member(k, x) == (old(buckets).spec_member(k, x) || reexported_upto(
                    store,
                    inc,
                    k,
                    x,
                    j as int,
                )),
        decreases n - j,
    {
        let mid = store.items[j].0;
        proof {
            assert(store.items@[j as int].0 == mid);
        }
        match store.find_item(mid) {
            Some(m) => {
                if matches!(m.kind, ItemKind::Module) {
                    match store.find_path(mid) {
                        Some(pe) => {
                            let key = clone_segments(&pe.segments);
                            proof {
                                assert(spec_module_at(store, mid, seq_views(key@)));
                            }
                            assign_module_reexports(store, inc, buckets, mid, &key, &m.members);
                        },
                        None => {},
                    }
                }
            },
            None => {},
        }
        proof {
            assert forall|k: Seq<Seq<char>>|
                module_key_upto(store, k, j + 1) implies (module_key_upto(store, k, j as int) || (
                spec_module_at(store, mid, k))) by {
                let a = choose|a: int|
                    0 <= a < j + 1 && spec_module_at(store, #[trigger] store.items@[a].0, k);
                if a < j {
                    assert(module_key_upto(store, k, j as int));
                }
            }
            assert forall|k: Seq<Seq<char>>, x: u64|
                reexported_upto(store, inc, k, x, j + 1) implies (reexported_upto(
                store,
                inc,
                k,
                x,
                j as int,
            ) || (spec_module_at(store, mid, k) && spec_module_contrib(store, inc, mid, k, x))) by {
                let a = choose|a: int|
                    0 <= a < j + 1 && spec_module_at(store, #[trigger] store.items@[a].0, k)
                        && spec_module_contrib(store, inc, store.items@[a].0, k, x);
                if a < j {
                    assert(reexported_upto(store, inc, k, x, j as int));
                }
            }
            // a module's path view is determined, so contributions land on it
        }
        j = j + 1;
    }
    proof {
        assert forall|k: Seq<Seq<char>>| spec_module_key(store, k) implies module_key_upto(
            store,
            k,
            n as int,
        ) by {
            let mid = choose|mid: u64| spec_module_at(store, mid, k);
            lemma_assoc_some_iff_contains(store.items@, mid);
            let a = choose|a: int| 0 <= a < store.items@.len() && store.items@[a].0 == mid;
            assert(spec_module_at(store, store.items@[a].0, k));
        }
        assert forall|k: Seq<Seq<char>>, x: u64|
            spec_reexported(store, inc, k, x) implies reexported_upto(
            store,
            inc,
            k,
            x,
            n as int,
        ) by {
            let mid = choose|mid: u64|
                #[trigger] spec_module_at(store, mid, k) && spec_module_contrib(
                    store,
                    inc,
                    mid,
                    k,
                    x,
                );
            lemma_assoc_some_iff_contains(store.items@, mid);
            let a = choose|a: int| 0 <= a < store.items@.len() && store.items@[a].0 == mid;
            assert(spec_module_at(store, store.items@[a].0, k) && spec_module_contrib(
                store,
                inc,
                store.items@[a].0,
                k,
                x,
            ));
        }
    }
}

/// Ancestor keys contributed by the first `i` collected keys.
pub open spec fn prefixes_upto(kvs: Seq<Seq<Seq<char>>>, k: Seq<Seq<char>>, i: int) -> bool {
    exists|a: int, b: int|
        0 <= a < i && 1 <= b < kvs[a].len() && k == #[trigger] kvs[a].take(b)
}

/// Ancestor keys of collected key `i` alone, up to prefix length `j`.
pub open spec fn prefix_of_at(kvs: Seq<Seq<Seq<char>>>, i: int, k: Seq<Seq<char>>, j: int) -> bool {
    exists|b: int| 1 <= b < j && k == #[trigger] kvs[i].take(b)
}

/// Insert an empty bucket for every proper, non-empty ancestor path of every
/// existing bucket key, so that no module page is missing.
fn close_ancestors(store: &ItemStore, buckets: &mut ModuleBuckets)
    requires
        old(buckets).wf(store),
    ensures
        final(buckets).wf(store),
        forall|k: Seq<Seq<char>>, x: u64|
            final(buckets).spec_member(k, x) == old(buckets).spec_member(k, x),
        forall|k: Seq<Seq<char>>|
            final(buckets).spec_has_key(k) == (old(buckets).spec_has_key(k) || (k.len() >= 1
                && exists|b: Seq<Seq<char>>|
                #[trigger] old(buckets).spec_has_key(b) && is_strict_prefix(k, b))),
{
    // collect the current keys first, so the walk is over a fixed list
    let mut keys: Vec<Vec<String>> = Vec::new();
    let mut c: usize = 0;
    while c < buckets.buckets.len()
        invariant
            c <= buckets.buckets@.len(),
            keys@.len() == c,
            forall|a: int|
                0 <= a < c ==> seq_views(#[trigger] keys@[a]@) == seq_views(
                    buckets.buckets@[a].key@,
                ),
        decreases buckets.buckets@.len() - c,
    {
        let kcopy = clone_segments(&buckets.buckets[c].key);
        keys.push(kcopy);
        c = c + 1;
    }
    let ghost kvs = keys@.map_values(|v: Vec<String>| seq_views(v@));
    proof {
        assert(kvs.len() == old(buckets).buckets@.len());
        assert forall|a: int| 0 <= a < kvs.len() implies #[trigger] kvs[a] == seq_views(
            old(buckets).buckets@[a].key@,
        ) by {
            assert(kvs[a] == seq_views(keys@[a]@));
        }
    }
    let mut i: usize = 0;
    while i < keys.len()
        invariant
            i <= keys@.len(),
            kvs == keys@.map_values(|v: Vec<String>| seq_views(v@)),
            kvs.len() == keys@.len(),
            forall|a: int|
                0 <= a < kvs.len() ==> #[trigger] kvs[a] == seq_views(
                    old(buckets).buckets@[a].key@,
                ),
            buckets.wf(store),
            forall|k: Seq<Seq<char>>, x: u64|
                buckets.spec_member(k, x) == old(buckets).spec_member(k, x),
            forall|k: Seq<Seq<char>>|
                buckets.spec_has_key(k) == (old(buckets).spec_has_key(k) || prefixes_upto(
                    kvs,
                    k,
                    i as int,
                )),
        decreases keys@.len() - i,
    {
        let blen = keys[i].len();
        let mut j: usize = 1;
        while j < blen
            invariant
                1 <= j,
                j <= blen || j == 1,
                i < keys@.len(),
                blen == keys@[i as int]@.len(),
                kvs == keys@.map_values(|v: Vec<String>| seq_views(v@)),
                kvs.len() == keys@.len(),
                forall|a: int|
                    0 <= a < kvs.len() ==> #[trigger] kvs[a] == seq_views(
                        old(buckets).buckets@[a].key@,
                    ),
                buckets.wf(store),
                forall|k: Seq<Seq<char>>, x: u64|
                    buckets.spec_member(k, x) == old(buckets).spec_member(k, x),
                forall|k: Seq<Seq<char>>|
                    buckets.spec_has_key(k) == (old(buckets).spec_has_key(k) || prefixes_upto(
                        kvs,
                        k,
                        i as int,
                    ) || prefix_of_at(kvs, i as int, k, j as int)),
            decreases blen - j,
        {
            let mut pref = clone_segments(&keys[i]);
            pref.truncate(j);
            proof {
                assert(seq_views(pref@) =~= kvs[i as int].take(j as int));
            }
            ensure_bucket(store, buckets, &pref);
            proof {
                let ghost jn: int = j + 1;
                assert forall|k: Seq<Seq<char>>|
                    prefix_of_at(kvs, i as int, k, jn) implies (prefix_of_at(
                    kvs,
                    i as int,
                    k,
                    j as int,
                ) || k == seq_views(pref@)) by {
                    let b = choose|b: int| 1 <= b < jn && k == #[trigger] kvs[i as int].take(b);
                    if b < j {
                        assert(prefix_of_at(kvs, i as int, k, j as int));
                    }
                }
                assert forall|k: Seq<Seq<char>>|
                    (prefix_of_at(kvs, i as int, k, j as int) || k == seq_views(
                        pref@,
                    )) implies prefix_of_at(kvs, i as int, k, jn) by {
                    if prefix_of_at(kvs, i as int, k, j as int) {
                        let b = choose|b: int| 1 <= b < j && k == #[trigger] kvs[i as int].take(b);
                        assert(1 <= b < jn && k == kvs[i as int].take(b));
                    } else {
                        assert(k == kvs[i as int].take(j as int));
                        assert(1 <= (j as int) < jn);
                    }
                    assert(prefix_of_at(kvs, i as int, k, jn));
                }
            }
            j = j + 1;
        }
        proof {
            let ghost inext: int = i + 1;
            let ghost jexit: int = j as int;
            assert(kvs[i as int].len() == blen);
            assert(jexit == blen || (jexit == 1 && blen == 0));
            assert forall|k: Seq<Seq<char>>|
                prefixes_upto(kvs, k, inext) implies (prefixes_upto(kvs, k, i as int)
                || prefix_of_at(kvs, i as int, k, jexit)) by {
                let (a, b) = choose|a: int, b: int|
                    0 <= a < inext && 1 <= b < kvs[a].len() && k == #[trigger] kvs[a].take(b);
                if a < i {
                    assert(prefixes_upto(kvs, k, i as int));
                } else {
                    assert(1 <= b < jexit && k == kvs[i as int].take(b));
                    assert(prefix_of_at(kvs, i as int, k, jexit));
                }
            }
            assert forall|k: Seq<Seq<char>>|
                (prefixes_upto(kvs, k, i as int) || prefix_of_at(
                    kvs,
                    i as int,
                    k,
                    jexit,
                )) implies prefixes_upto(kvs, k, inext) by {
                if prefixes_upto(kvs, k, i as int) {
                    let (a, b) = choose|a: int, b: int|
                        0 <= a < i && 1 <= b < kvs[a].len() && k == #[trigger] kvs[a].take(b);
                    assert(0 <= a < inext && 1 <= b < kvs[a].len() && k == kvs[a].take(b));
                } else {
                    let b = choose|b: int| 1 <= b < jexit && k == #[trigger] kvs[i as int].take(b);
                    assert(0 <= i < inext && 1 <= b < kvs[i as int].len() && k == kvs[i as int].take(
                        b,
                    ));
                }
                assert(prefixes_upto(kvs, k, inext));
            }
        }
        i = i + 1;
    }
    proof {
        assert forall|k: Seq<Seq<char>>|
            prefixes_upto(kvs, k, kvs.len() as int) implies (k.len() >= 1 && exists|
            b: Seq<Seq<char>>,
        |
            #[trigger] old(buckets).spec_has_key(b) && is_strict_prefix(k, b)) by {
            let (a, b) = choose|a: int, b: int|
                0 <= a < kvs.len() && 1 <= b < kvs[a].len() && k == #[trigger] kvs[a].take(b);
            assert(old(buckets).spec_has_key(kvs[a]));
            assert(is_strict_prefix(k, kvs[a]));
        }
        assert forall|k: Seq<Seq<char>>|
            (k.len() >= 1 && exists|b: Seq<Seq<char>>|
                #[trigger] old(buckets).spec_has_key(b) && is_strict_prefix(
                    k,
                    b,
                )) implies prefixes_upto(kvs, k, kvs.len() as int) by {
            let bk = choose|b: Seq<Seq<char>>|
                #[trigger] old(buckets).spec_has_key(b) && is_strict_prefix(k, b);
            let a = choose|a: int|
                0 <= a < old(buckets).buckets@.len() && seq_views(
                    old(buckets).buckets@[a].key@,
                ) == bk;
            assert(kvs[a] == bk);
            assert(k == kvs[a].take(k.len() as int));
            assert(1 <= k.len() < kvs[a].len());
            assert(prefixes_upto(kvs, k, kvs.len() as int));
        }
    }
}

/// Produce the full bucket map for one conversion run: direct assignment,
/// re-export listing, wildcard expansion, and ancestor closure, in one
/// canonical, deterministic shape.
pub fn assign_modules(store: &ItemStore, include_private: bool) -> (r: ModuleBuckets)
    ensures
        r.wf(store),
        forall|k: Seq<Seq<char>>, x: u64|
            #[trigger] r.spec_member(k, x) == spec_assigned(store, include_private, k, x),
        forall|k: Seq<Seq<char>>|
            #[trigger] r.spec_has_key(k) == spec_bucket_key(store, include_private, k),
{
    let mut buckets = ModuleBuckets { buckets: Vec::new() };
    assign_direct(store, include_private, &mut buckets);
    assign_reexports(store, include_private, &mut buckets);
    let ghost base = buckets;
    proof {
        // at this point the key set is exactly the set of base keys
        assert forall|k: Seq<Seq<char>>|
            base.spec_has_key(k) == spec_base_key(store, include_private, k) by {
            assert(base.spec_has_key(k) == (spec_direct_key(store, include_private, k)
                || spec_module_key(store, k)));
            if base.spec_has_key(k) {
                if spec_direct_key(store, include_private, k) {
                    let x = choose|x: u64| spec_direct(store, include_private, k, x);
                    assert(spec_assigned(store, include_private, k, x));
                } else {
                    assert(spec_module_key(store, k));
                    let mid = choose|mid: u64| spec_module_at(store, mid, k);
                    assert(spec_module_at(store, mid, k));
                }
            }
            if spec_base_key(store, include_private, k) {
                if exists|x: u64| #[trigger] spec_assigned(store, include_private, k, x) {
                    let x = choose|x: u64| #[trigger] spec_assigned(store, include_private, k, x);
                    if spec_direct(store, include_private, k, x) {
                        assert(spec_direct_key(store, include_private, k));
                    } else {
                        let mid = choose|mid: u64|
                            #[trigger] spec_module_at(store, mid, k) && spec_module_contrib(
                                store,
                                include_private,
                                mid,
                                k,
                                x,
                            );
                        assert(spec_module_key(store, k));
                    }
                } else {
                    let mid = choose|mid: u64| #[trigger] spec_module_at(store, mid, k);
                    assert(spec_module_key(store, k));
                }
            }
        }
    }
    close_ancestors(store, &mut buckets);
    proof {
        assert forall|k: Seq<Seq<char>>|
            #[trigger] buckets.spec_has_key(k) == spec_bucket_key(store, include_private, k) by {
            if buckets.spec_has_key(k) {
                if base.spec_has_key(k) {
                    assert(k.take(k.len() as int) =~= k);
                    assert(is_prefix(k, k));
                    assert(spec_base_key(store, include_private, k) && is_prefix(k, k) && (k.len()
                        >= 1 || k == k));
                    assert(spec_bucket_key(store, include_private, k));
                } else {
                    let bk = choose|b: Seq<Seq<char>>|
                        #[trigger] base.spec_has_key(b) && is_strict_prefix(k, b);
                    assert(spec_base_key(store, include_private, bk));
                    assert(is_prefix(k, bk));
                    assert(spec_bucket_key(store, include_private, k));
                }
            }
            if spec_bucket_key(store, include_private, k) {
                let bk = choose|b: Seq<Seq<char>>|
                    #[trigger] spec_base_key(store, include_private, b) && is_prefix(k, b) && (
                    k.len() >= 1 || k == b);
                if k == bk {
                    assert(base.spec_has_key(k));
                } else {
                    if k.len() == bk.len() {
                        assert(k =~= bk.take(k.len() as int));
                        assert(bk.take(bk.len() as int) =~= bk);
                        assert(false);
                    }
                    assert(is_strict_prefix(k, bk));
                    assert(base.spec_has_key(bk));
                    assert(k.len() >= 1);
                }
                assert(buckets.spec_has_key(k));
            }
        }
    }
    buckets
}

/// Law: completeness of the module tree. Every non-empty proper ancestor
/// path of a bucket key is itself a bucket key after assignment.
pub proof fn lemma_module_tree_complete(store: &ItemStore, inc: bool, k: Seq<Seq<char>>, n: int)
    requires
        spec_bucket_key(store, inc, k),
        1 <= n < k.len(),
    ensures
        spec_bucket_key(store, inc, k.take(n)),
{
    let base = choose|base: Seq<Seq<char>>|
        #[trigger] spec_base_key(store, inc, base) && is_prefix(k, base) && (k.len() >= 1 || k
            == base);
    assert(k == base.take(k.len() as int));
    assert(k.take(n) =~= base.take(n));
    assert(is_prefix(k.take(n), base));
    assert(spec_base_key(store, inc, base) && is_prefix(k.take(n), base) && (k.take(n).len() >= 1
        || k.take(n) == base));
}

/// Law: completeness of the module tree, stated of a bucket map that meets
/// the assigner's contract: every non-empty proper ancestor of one of its
/// keys is again one of its keys.
pub proof fn lemma_buckets_ancestor_closed(
    store: &ItemStore,
    inc: bool,
    r: &ModuleBuckets,
    k: Seq<Seq<char>>,
    n: int,
)
    requires
        forall|k2: Seq<Seq<char>>| #[trigger] r.spec_has_key(k2) == spec_bucket_key(store, inc, k2),
        r.spec_has_key(k),
        1 <= n < k.len(),
    ensures
        r.spec_has_key(k.take(n)),
{
    lemma_module_tree_complete(store, inc, k, n);
}

/// Two strictly sorted id lists with the same members are equal.
proof fn lemma_sorted_ids_unique(store: &ItemStore, a: Seq<u64>, b: Seq<u64>)
    requires
        forall|i: int, j: int| 0 <= i < j < a.len() ==> id_lt(store, a[i], a[j]),
        forall|i: int, j: int| 0 <= i < j < b.len() ==> id_lt(store, b[i], b[j]),
        forall|x: u64| a.contains(x) == b.contains(x),
    ensures
        a == b,
    decreases a.len(),
{
    if a.len() == 0 {
        if b.len() > 0 {
            assert(b.contains(b[0]));
            assert(a.contains(b[0]));
        }
        assert(a =~= b);
    } else {
        assert(a.contains(a[0]));
        assert(b.contains(a[0]));
        let i = choose|i: int| 0 <= i < b.len() && b[i] == a[0];
        assert(b.contains(b[0]));
        assert(a.contains(b[0]));
        let j = choose|j: int| 0 <= j < a.len() && a[j] == b[0];
        if a[0] != b[0] {
            assert(i > 0 && j > 0);
            assert(id_lt(store, b[0], b[i]));
            assert(id_lt(store, a[0], a[j]));
            lemma_id_lt_transitive(store, a[0], b[0], a[0]);
            lemma_id_lt_irreflexive(store, a[0]);
        }
        let at = a.drop_first();
        let bt = b.drop_first();
        assert forall|x: u64| at.contains(x) == bt.contains(x) by {
            if at.contains(x) {
                let p = choose|p: int| 0 <= p < at.len() && at[p] == x;
                assert(a[p + 1] == x);
                assert(id_lt(store, a[0], x));
                lemma_id_lt_irreflexive(store, x);
                assert(x != b[0]);
                assert(a.contains(x));
                assert(b.contains(x));
                let q = choose|q: int| 0 <= q < b.len() && b[q] == x;
                assert(q != 0);
                assert(bt[q - 1] == x);
                assert(bt.contains(x));
            }
            if bt.contains(x) {
                let p = choose|p: int| 0 <= p < bt.len() && bt[p] == x;
                assert(b[p + 1] == x);
                assert(id_lt(store, b[0], x));
                lemma_id_lt_irreflexive(store, x);
                assert(x != a[0]);
                assert(b.contains(x));
                assert(a.contains(x));
                let q = choose|q: int| 0 <= q < a.len() && a[q] == x;
                assert(q != 0);
                assert(at[q - 1] == x);
                assert(at.contains(x));
            }
        }
        assert forall|i2: int, j2: int| 0 <= i2 < j2 < at.len() implies id_lt(
            store,
            at[i2],
            at[j2],
        ) by {
            assert(at[i2] == a[i2 + 1] && at[j2] == a[j2 + 1]);
        }
        assert forall|i2: int, j2: int| 0 <= i2 < j2 < bt.len() implies id_lt(
            store,
            bt[i2],
            bt[j2],
        ) by {
            assert(bt[i2] == b[i2 + 1] && bt[j2] == b[j2 + 1]);
        }
        lemma_sorted_ids_unique(store, at, bt);
        assert(a =~= seq![a[0]] + at);
        assert(b =~= seq![b[0]] + bt);
    }
}

/// The observable content of a bucket map: each bucket's key view and item
/// id sequence, in order.
pub open spec fn bucket_views(r: &ModuleBuckets) -> Seq<(Seq<Seq<char>>, Seq<u64>)> {
    r.buckets@.map_values(|mb: ModuleBucket| (seq_views(mb.key@), mb.item_ids@))
}

/// Two canonical bucket maps with the same keys and members are identical.
proof fn lemma_sorted_buckets_unique(store: &ItemStore, s: Seq<ModuleBucket>, t: Seq<ModuleBucket>)
    requires
        forall|i: int, j: int|
            0 <= i < j < s.len() ==> plex_lt(seq_views(s[i].key@), seq_views(s[j].key@)),
        forall|i: int, j: int|
            0 <= i < j < t.len() ==> plex_lt(seq_views(t[i].key@), seq_views(t[j].key@)),
        forall|i: int, a: int, b: int|
            0 <= i < s.len() && 0 <= a < b < s[i].item_ids@.len() ==> id_lt(
                store,
                s[i].item_ids@[a],
                s[i].item_ids@[b],
            ),
        forall|i: int, a: int, b: int|
            0 <= i < t.len() && 0 <= a < b < t[i].item_ids@.len() ==> id_lt(
                store,
                t[i].item_ids@[a],
                t[i].item_ids@[b],
            ),
        forall|k: Seq<Seq<char>>| #[trigger] seq_has_key(s, k) == seq_has_key(t, k),
        forall|k: Seq<Seq<char>>, x: u64|
            #[trigger] seq_member(s, k, x) == seq_member(t, k, x),
    ensures
        s.map_values(|mb: ModuleBucket| (seq_views(mb.key@), mb.item_ids@)) =~= t.map_values(
            |mb: ModuleBucket| (seq_views(mb.key@), mb.item_ids@),
        ),
    decreases s.len(),
{
    if s.len() == 0 {
        if t.len() > 0 {
            assert(seq_has_key(t, seq_views(t[0].key@)));
            assert(seq_has_key(s, seq_views(t[0].key@)));
            let i = choose|i: int| 0 <= i < s.len() && seq_views(#[trigger] s[i].key@) == seq_views(
                t[0].key@,
            );
        }
    } else if t.len() == 0 {
        assert(seq_has_key(s, seq_views(s[0].key@)));
        assert(seq_has_key(t, seq_views(s[0].key@)));
        let i = choose|i: int| 0 <= i < t.len() && seq_views(#[trigger] t[i].key@) == seq_views(
            s[0].key@,
        );
    } else {
        let ks = seq_views(s[0].key@);
        let kt = seq_views(t[0].key@);
        if ks != kt {
            assert(seq_has_key(s, ks));
            assert(seq_has_key(t, ks));
            let i = choose|i: int|
                0 <= i < t.len() && seq_views(#[trigger] t[i].key@) == ks;
            assert(i > 0);
            assert(plex_lt(kt, ks));
            assert(seq_has_key(t, kt));
            assert(seq_has_key(s, kt));
            let j = choose|j: int|
                0 <= j < s.len() && seq_views(#[trigger] s[j].key@) == kt;
            assert(j > 0);
            assert(plex_lt(ks, kt));
            lemma_plex_lt_transitive(ks, kt, ks);
            lemma_plex_lt_irreflexive(ks);
        }
        // the head buckets hold the same ids
        assert forall|x: u64| s[0].item_ids@.contains(x) == t[0].item_ids@.contains(x) by {
            if s[0].item_ids@.contains(x) {
                assert(seq_member(s, ks, x));
                assert(seq_member(t, ks, x));
                let i = choose|i: int|
                    0 <= i < t.len() && seq_views(#[trigger] t[i].key@) == ks
                        && t[i].item_ids@.contains(x);
                if i > 0 {
                    assert(plex_lt(kt, seq_views(t[i].key@)));
                    lemma_plex_lt_irreflexive(ks);
                }
            }
            if t[0].item_ids@.contains(x) {
                assert(seq_member(t, kt, x));
                assert(seq_member(s, kt, x));
                let i = choose|i: int|
                    0 <= i < s.len() && seq_views(#[trigger] s[i].key@) == kt
                        && s[i].item_ids@.contains(x);
                if i > 0 {
                    assert(plex_lt(ks, seq_views(s[i].key@)));
                    lemma_plex_lt_irreflexive(ks);
                }
            }
        }
        lemma_sorted_ids_unique(store, s[0].item_ids@, t[0].item_ids@);
        let st = s.drop_first();
        let tt = t.drop_first();
        assert forall|i2: int, j2: int| 0 <= i2 < j2 < st.len() implies plex_lt(
            seq_views(st[i2].key@),
            seq_views(st[j2].key@),
        ) by {
            assert(st[i2] == s[i2 + 1] && st[j2] == s[j2 + 1]);
        }
        assert forall|i2: int, j2: int| 0 <= i2 < j2 < tt.len() implies plex_lt(
            seq_views(tt[i2].key@),
            seq_views(tt[j2].key@),
        ) by {
            assert(tt[i2] == t[i2 + 1] && tt[j2] == t[j2 + 1]);
        }
        assert forall|i2: int, a: int, b: int|
            0 <= i2 < st.len() && 0 <= a < b < st[i2].item_ids@.len() implies id_lt(
            store,
            st[i2].item_ids@[a],
            st[i2].item_ids@[b],
        ) by {
            assert(st[i2] == s[i2 + 1]);
        }
        assert forall|i2: int, a: int, b: int|
            0 <= i2 < tt.len() && 0 <= a < b < tt[i2].item_ids@.len() implies id_lt(
            store,
            tt[i2].item_ids@[a],
            tt[i2].item_ids@[b],
        ) by {
            assert(tt[i2] == t[i2 + 1]);
        }
        // keys other than the heads are untouched by dropping the head
        assert forall|k: Seq<Seq<char>>| #[trigger] seq_has_key(st, k) == seq_has_key(tt, k) by {
            if seq_has_key(st, k) {
                let i = choose|i: int| 0 <= i < st.len() && seq_views(#[trigger] st[i].key@) == k;
                assert(st[i] == s[i + 1]);
                assert(plex_lt(ks, k));
                lemma_plex_lt_irreflexive(k);
                assert(k != ks);
                assert(seq_has_key(s, k));
                assert(seq_has_key(t, k));
                let j = choose|j: int| 0 <= j < t.len() && seq_views(#[trigger] t[j].key@) == k;
                assert(j != 0);
                assert(tt[j - 1] == t[j]);
                assert(seq_views(tt[j - 1].key@) == k);
                assert(seq_has_key(tt, k));
            }
            if seq_has_key(tt, k) {
                let i = choose|i: int| 0 <= i < tt.len() && seq_views(#[trigger] tt[i].key@) == k;
                assert(tt[i] == t[i + 1]);
                assert(plex_lt(kt, k));
                lemma_plex_lt_irreflexive(k);
                assert(k != kt);
                assert(seq_has_key(t, k));
                assert(seq_has_key(s, k));
                let j = choose|j: int| 0 <= j < s.len() && seq_views(#[trigger] s[j].key@) == k;
                assert(j != 0);
                assert(st[j - 1] == s[j]);
                assert(seq_views(st[j - 1].key@) == k);
                assert(seq_has_key(st, k));
            }
        }
        assert forall|k: Seq<Seq<char>>, x: u64|
            #[trigger] seq_member(st, k, x) == seq_member(tt, k, x) by {
            if seq_member(st, k, x) {
                let i = choose|i: int|
                    0 <= i < st.len() && seq_views(#[trigger] st[i].key@) == k
                        && st[i].item_ids@.contains(x);
                assert(st[i] == s[i + 1]);
                assert(plex_lt(ks, k));
                lemma_plex_lt_irreflexive(k);
                assert(seq_member(s, k, x));
                assert(seq_member(t, k, x));
                let j = choose|j: int|
                    0 <= j < t.len() && seq_views(#[trigger] t[j].key@) == k
                        && t[j].item_ids@.contains(x);
                assert(j != 0);
                assert(tt[j - 1] == t[j]);
                assert(seq_member(tt, k, x));
            }
            if seq_member(tt, k, x) {
                let i = choose|i: int|
                    0 <= i < tt.len() && seq_views(#[trigger] tt[i].key@) == k
                        && tt[i].item_ids@.contains(x);
                assert(tt[i] == t[i + 1]);
                assert(plex_lt(kt, k));
                lemma_plex_lt_irreflexive(k);
                assert(seq_member(t, k, x));
                assert(seq_member(s, k, x));
                let j = choose|j: int|
                    0 <= j < s.len() && seq_views(#[trigger] s[j].key@) == k
                        && s[j].item_ids@.contains(x);
                assert(j != 0);
                assert(st[j - 1] == s[j]);
                assert(seq_member(st, k, x));
            }
        }
        lemma_sorted_buckets_unique(store, st, tt);
        let ms = s.map_values(|mb: ModuleBucket| (seq_views(mb.key@), mb.item_ids@));
        let mt = t.map_values(|mb: ModuleBucket| (seq_views(mb.key@), mb.item_ids@));
        assert forall|i: int| 0 <= i < ms.len() implies ms[i] == mt[i] by {
            if i > 0 {
                let mst = st.map_values(|mb: ModuleBucket| (seq_views(mb.key@), mb.item_ids@));
                let mtt = tt.map_values(|mb: ModuleBucket| (seq_views(mb.key@), mb.item_ids@));
                assert(mst =~= mtt);
                assert(mst[i - 1] == ms[i]);
                assert(mtt[i - 1] == mt[i]);
            }
        }
    }
}

/// Law: idempotent re-assignment. Any two bucket maps in canonical shape
/// that agree with the assigner's contract for the same input have
/// identical contents, ordering included; running the assigner twice on one
/// input can therefore only repeat its output.
pub proof fn lemma_assignment_deterministic(
    store: &ItemStore,
    inc: bool,
    r1: &ModuleBuckets,
    r2: &ModuleBuckets,
)
    requires
        r1.wf(store),
        r2.wf(store),
        forall|k: Seq<Seq<char>>, x: u64|
            #[trigger] r1.spec_member(k, x) == spec_assigned(store, inc, k, x),
        forall|k: Seq<Seq<char>>|
            #[trigger] r1.spec_has_key(k) == spec_bucket_key(store, inc, k),
        forall|k: Seq<Seq<char>>, x: u64|
            #[trigger] r2.spec_member(k, x) == spec_assigned(store, inc, k, x),
        forall|k: Seq<Seq<char>>|
            #[trigger] r2.spec_has_key(k) == spec_bucket_key(store, inc, k),
    ensures
        bucket_views(r1) == bucket_views(r2),
{
    assert forall|k: Seq<Seq<char>>|
        #[trigger] seq_has_key(r1.buckets@, k) == seq_has_key(r2.buckets@, k) by {
        assert(r1.spec_has_key(k) == spec_bucket_key(store, inc, k));
        assert(r2.spec_has_key(k) == spec_bucket_key(store, inc, k));
    }
    assert forall|k: Seq<Seq<char>>, x: u64|
        #[trigger] seq_member(r1.buckets@, k, x) == seq_member(r2.buckets@, k, x) by {
        assert(r1.spec_member(k, x) == spec_assigned(store, inc, k, x));
        assert(r2.spec_member(k, x) == spec_assigned(store, inc, k, x));
    }
    lemma_sorted_buckets_unique(store, r1.buckets@, r2.buckets@);
}

/// Order test on ids, by name then id.
fn id_lt_exec(store: &ItemStore, a: u64, b: u64) -> (r: bool)
    ensures
        r == id_lt(store, a, b),
{
    proof {
        reveal_strlit("");
        assert(""@ =~= Seq::<char>::empty());
    }
    let na: &str = match store.find_item(a) {
        Some(it) => match &it.name {
            Some(n) => n.as_str(),
            None => "",
        },
        None => "",
    };
    let nb: &str = match store.find_item(b) {
        Some(it) => match &it.name {
            Some(n) => n.as_str(),
            None => "",
        },
        None => "",
    };
    if str_lt(na, nb) {
        true
    } else {
        str_eq(na, nb) && a < b
    }
}

} // verus!
