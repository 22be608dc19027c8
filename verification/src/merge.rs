//! Multi-project accumulation: merge a freshly built sidebar set into a
//! previously persisted one by key union with last-writer-wins, and
//! recompute the cross-project root list from the merged membership rather
//! than preserving any earlier root.

use crate::sidebar::{entry_views, nodes_view, NodeView, SidebarItem};
use crate::options::SidebarSet;
use crate::strutil::{lex_lt, lemma_lex_lt_connex, lemma_lex_lt_irreflexive, lemma_lex_lt_transitive, str_eq, str_lt};
use vstd::prelude::*;

verus! {

/// The value of the LAST entry carrying a key, if any: a later write wins.
pub open spec fn spec_last_assoc(
    s: Seq<(Seq<char>, Seq<NodeView>)>,
    k: Seq<char>,
) -> Option<Seq<NodeView>>
    decreases s.len(),
{
    if s.len() == 0 {
        None
    } else if s.last().0 == k {
        Some(s.last().1)
    } else {
        spec_last_assoc(s.drop_last(), k)
    }
}

/// Whether some entry carries the key.
pub open spec fn spec_set_has(s: Seq<(Seq<char>, Seq<NodeView>)>, k: Seq<char>) -> bool {
    spec_last_assoc(s, k) is Some
}

/// Insert or replace one entry, keeping the keys sorted and distinct.
fn upsert(r: &mut Vec<(String, Vec<SidebarItem>)>, key: String, value: Vec<SidebarItem>)
    requires
        forall|i: int, j: int|
            0 <= i < j < old(r)@.len() ==> lex_lt(
                (#[trigger] old(r)@[i]).0@,
                (#[trigger] old(r)@[j]).0@,
            ),
    ensures
        forall|i: int, j: int|
            0 <= i < j < final(r)@.len() ==> lex_lt(
                (#[trigger] final(r)@[i]).0@,
                (#[trigger] final(r)@[j]).0@,
            ),
        forall|q: Seq<char>|
            #[trigger] spec_last_assoc(entry_views(final(r)@), q) == (if q == key@ {
                Some(nodes_view(value@))
            } else {
                spec_last_assoc(entry_views(old(r)@), q)
            }),
{
    let ghost orig = r@;
    let ghost kv = key@;
    let mut p: usize = 0;
    loop
        invariant
            p <= r@.len(),
            r@ == orig,
            kv == key@,
            forall|i: int, j: int|
                0 <= i < j < orig.len() ==> lex_lt((#[trigger] orig[i]).0@, (#[trigger] orig[j]).0@),
            forall|a: int| 0 <= a < p ==> lex_lt((#[trigger] orig[a]).0@, kv),
        ensures
            r@ == orig,
            p <= orig.len(),
            forall|a: int| 0 <= a < p ==> lex_lt((#[trigger] orig[a]).0@, kv),
            p < orig.len() ==> !lex_lt(orig[p as int].0@, kv),
        decreases orig.len() - p,
    {
        if p == r.len() {
            break;
        }
        if str_lt(r[p].0.as_str(), key.as_str()) {
            p = p + 1;
        } else {
            break;
        }
    }
    let mut replace = false;
    if p < r.len() {
        if str_eq(r[p].0.as_str(), key.as_str()) {
            replace = true;
        }
    }
    proof {
        if (p as int) < orig.len() && !replace {
            lemma_lex_lt_connex(kv, orig[p as int].0@);
        }
    }
    if replace {
        r.remove(p);
    }
    let ghost mid = r@;
    r.insert(p, (key, value));
    proof {
        let t = r@;
        // keys at positions other than p are carried over unchanged
        assert forall|i: int, j: int| 0 <= i < j < t.len() implies lex_lt(
            (#[trigger] t[i]).0@,
            (#[trigger] t[j]).0@,
        ) by {
            let oi = if replace {
                i
            } else {
                if i < p {
                    i
                } else {
                    i - 1
                }
            };
            let oj = if replace {
                j
            } else {
                if j < p {
                    j
                } else {
                    j - 1
                }
            };
            if replace {
                if i < p {
                    assert(t[i] == mid[i] && mid[i] == orig[i]);
                }
                if i > p {
                    assert(t[i] == mid[i - 1] && mid[i - 1] == orig[i]);
                }
                if j < p {
                    assert(t[j] == mid[j] && mid[j] == orig[j]);
                }
                if j > p {
                    assert(t[j] == mid[j - 1] && mid[j - 1] == orig[j]);
                }
                if i == p {
                    assert(t[i].0@ == kv);
                    assert(!lex_lt(orig[p as int].0@, kv) || orig[p as int].0@ == kv);
                    assert(orig[p as int].0@ == kv);
                    assert(lex_lt(orig[p as int].0@, orig[j].0@));
                }
                if j == p {
                    assert(t[j].0@ == kv && orig[p as int].0@ == kv);
                    assert(lex_lt(orig[i].0@, orig[p as int].0@));
                }
            } else {
                if i < p && j < p {
                    assert(t[i] == orig[i] && t[j] == orig[j]);
                } else if i < p && j == p {
                    assert(t[i] == orig[i]);
                } else if i < p && j > p {
                    assert(t[i] == orig[i] && t[j] == orig[j - 1]);
                    if p == j - 1 {
                        lemma_lex_lt_transitive(orig[i].0@, kv, orig[p as int].0@);
                    }
                } else if i == p {
                    assert(t[j] == orig[j - 1]);
                    if j - 1 > p {
                        lemma_lex_lt_transitive(kv, orig[p as int].0@, orig[j - 1].0@);
                    } else {
                        assert(!lex_lt(orig[p as int].0@, kv));
                        lemma_lex_lt_connex(kv, orig[p as int].0@);
                        assert(orig[p as int].0@ != kv);
                    }
                } else {
                    assert(t[i] == orig[i - 1] && t[j] == orig[j - 1]);
                }
            }
        }
        // last-association: the new entry wins for its key; others unchanged
        let ghost ov = entry_views(orig);
        let ghost mv = entry_views(mid);
        let ghost tv2 = entry_views(t);
        assert(tv2 =~= mv.insert(p as int, tv2[p as int]));
        if replace {
            assert(mv =~= ov.remove(p as int));
        } else {
            assert(mv =~= ov);
        }
        assert(tv2[p as int].0 == kv);
        assert forall|i: int, j: int| 0 <= i < j < ov.len() implies (#[trigger] ov[i]).0 != (
        #[trigger] ov[j]).0 by {
            assert(lex_lt(orig[i].0@, orig[j].0@));
            lemma_lex_lt_irreflexive(orig[i].0@);
        }
        assert forall|i: int|
            0 <= i < ov.len() && (#[trigger] ov[i]).0 == kv implies (replace && i == p) by {
            if i < p {
                assert(lex_lt(orig[i].0@, kv));
                lemma_lex_lt_irreflexive(kv);
            }
            if i > p {
                if replace {
                    assert(lex_lt(orig[p as int].0@, orig[i].0@));
                    lemma_lex_lt_irreflexive(kv);
                } else {
                    assert(!lex_lt(orig[p as int].0@, kv));
                    lemma_lex_lt_connex(kv, orig[p as int].0@);
                    assert(orig[p as int].0@ != kv);
                    assert(lex_lt(kv, orig[p as int].0@));
                    if i == p {
                    } else {
                        assert(lex_lt(orig[p as int].0@, orig[i].0@));
                        lemma_lex_lt_transitive(kv, orig[p as int].0@, orig[i].0@);
                        lemma_lex_lt_irreflexive(kv);
                    }
                }
            }
            if i == p && !replace {
                assert(!lex_lt(orig[p as int].0@, kv));
                assert(orig[p as int].0@ != kv);
            }
        }
        assert forall|q: Seq<char>|
            #[trigger] spec_last_assoc(entry_views(t), q) == (if q == kv {
                Some(tv2[p as int].1)
            } else {
                spec_last_assoc(entry_views(orig), q)
            }) by {
            lemma_last_assoc_after_upsert(ov, mv, tv2, p as int, kv, q, replace);
        }
        assert(tv2[p as int].1 == nodes_view(t[p as int].1@));
    }
}

/// Merge one run's sidebar set into a previously persisted one: key union,
/// with the current run's entry winning wherever both sets carry a key; the
/// merged keys come out sorted.
pub fn merge_rust_sidebars(existing: SidebarSet, new_content: SidebarSet) -> (r: SidebarSet)
    ensures
        forall|i: int, j: int|
            0 <= i < j < r.entries@.len() ==> lex_lt(
                (#[trigger] r.entries@[i]).0@,
                (#[trigger] r.entries@[j]).0@,
            ),
        forall|q: Seq<char>|
            #[trigger] spec_last_assoc(entry_views(r.entries@), q) == (if spec_set_has(
                entry_views(new_content.entries@),
                q,
            ) {
                spec_last_assoc(entry_views(new_content.entries@), q)
            } else {
                spec_last_assoc(entry_views(existing.entries@), q)
            }),
{
    let ghost exv = entry_views(existing.entries@);
    let ghost nwv = entry_views(new_content.entries@);
    let mut r: Vec<(String, Vec<SidebarItem>)> = Vec::new();
    let mut src = existing.entries;
    proof {
        assert(entry_views(src@) =~= exv);
        assert(entry_views(r@).len() == 0);
    }
    let ghost mut consumed: int = 0;
    while src.len() > 0
        invariant
            0 <= consumed <= exv.len(),
            consumed + src@.len() == exv.len(),
            entry_views(src@) =~= exv.skip(consumed),
            forall|i: int, j: int|
                0 <= i < j < r@.len() ==> lex_lt((#[trigger] r@[i]).0@, (#[trigger] r@[j]).0@),
            forall|q: Seq<char>|
                #[trigger] spec_last_assoc(entry_views(r@), q) == spec_last_assoc(
                    exv.take(consumed),
                    q,
                ),
        decreases src@.len(),
    {
        let ghost s0 = src@;
        let e = src.remove(0);
        proof {
            assert(entry_views(s0)[0] == (e.0@, nodes_view(e.1@)));
            assert(exv.skip(consumed)[0] == exv[consumed]);
            assert(entry_views(src@) =~= entry_views(s0).drop_first());
            assert(entry_views(s0).drop_first() =~= exv.skip(consumed + 1));
        }
        let ghost kq = e.0@;
        upsert(&mut r, e.0, e.1);
        proof {
            assert forall|q: Seq<char>|
                #[trigger] spec_last_assoc(entry_views(r@), q) == spec_last_assoc(
                    exv.take(consumed + 1),
                    q,
                ) by {
                assert(exv.take(consumed + 1).drop_last() =~= exv.take(consumed));
                assert(exv.take(consumed + 1).last() == exv[consumed]);
                assert(exv[consumed].0 == kq);
            }
            consumed = consumed + 1;
        }
    }
    proof {
        assert(exv.take(exv.len() as int) =~= exv);
    }
    let mut src2 = new_content.entries;
    proof {
        assert(entry_views(src2@) =~= nwv);
    }
    let ghost mut consumed2: int = 0;
    while src2.len() > 0
        invariant
            0 <= consumed2 <= nwv.len(),
            consumed2 + src2@.len() == nwv.len(),
            entry_views(src2@) =~= nwv.skip(consumed2),
            forall|i: int, j: int|
                0 <= i < j < r@.len() ==> lex_lt((#[trigger] r@[i]).0@, (#[trigger] r@[j]).0@),
            forall|q: Seq<char>|
                #[trigger] spec_last_assoc(entry_views(r@), q) == (if spec_set_has(
                    nwv.take(consumed2),
                    q,
                ) {
                    spec_last_assoc(nwv.take(consumed2), q)
                } else {
                    spec_last_assoc(exv, q)
                }),
        decreases src2@.len(),
    {
        let ghost s0 = src2@;
        let e = src2.remove(0);
        proof {
            assert(entry_views(s0)[0] == (e.0@, nodes_view(e.1@)));
            assert(nwv.skip(consumed2)[0] == nwv[consumed2]);
            assert(entry_views(src2@) =~= entry_views(s0).drop_first());
            assert(entry_views(s0).drop_first() =~= nwv.skip(consumed2 + 1));
        }
        let ghost kq = e.0@;
        upsert(&mut r, e.0, e.1);
        proof {
            assert forall|q: Seq<char>|
                #[trigger] spec_last_assoc(entry_views(r@), q) == (if spec_set_has(
                    nwv.take(consumed2 + 1),
                    q,
                ) {
                    spec_last_assoc(nwv.take(consumed2 + 1), q)
                } else {
                    spec_last_assoc(exv, q)
                }) by {
                assert(nwv.take(consumed2 + 1).drop_last() =~= nwv.take(consumed2));
                assert(nwv.take(consumed2 + 1).last() == nwv[consumed2]);
                assert(nwv[consumed2].0 == kq);
            }
            consumed2 = consumed2 + 1;
        }
    }
    proof {
        assert(nwv.take(nwv.len() as int) =~= nwv);
    }
    SidebarSet { entries: r }
}

/// How one sorted upsert changes the last-association map: the inserted key
/// maps to the new value, every other key is untouched.
proof fn lemma_last_assoc_after_upsert(
    orig: Seq<(Seq<char>, Seq<NodeView>)>,
    mid: Seq<(Seq<char>, Seq<NodeView>)>,
    t: Seq<(Seq<char>, Seq<NodeView>)>,
    p: int,
    kv: Seq<char>,
    q: Seq<char>,
    replace: bool,
)
    requires
        0 <= p <= mid.len(),
        t == mid.insert(p, t[p]),
        t.len() == mid.len() + 1,
        t[p].0 == kv,
        if replace {
            0 <= p < orig.len() && mid == orig.remove(p) && orig[p].0 == kv
        } else {
            mid == orig
        },
        // keys are pairwise distinct in `orig`
        forall|i: int, j: int|
            0 <= i < j < orig.len() ==> (#[trigger] orig[i]).0 != (#[trigger] orig[j]).0,
        // `kv` occurs in `orig` only at `p`, when replacing; never otherwise
        forall|i: int|
            0 <= i < orig.len() && (#[trigger] orig[i]).0 == kv ==> (replace && i == p),
    ensures
        spec_last_assoc(t, q) == (if q == kv {
            Some(t[p].1)
        } else {
            spec_last_assoc(orig, q)
        }),
{
    lemma_last_assoc_unique(t, q);
    lemma_last_assoc_unique(orig, q);
    if q == kv {
        lemma_last_assoc_found(t, p, q);
    } else {
        if spec_last_assoc(orig, q) is Some {
            let i = lemma_last_assoc_witness(orig, q);
            let j = if replace {
                if i < p {
                    i
                } else {
                    i - 1
                }
            } else {
                i
            };
            let j2 = if j < p {
                j
            } else {
                j + 1
            };
            assert(t[j2] == orig[i]);
            lemma_last_assoc_found(t, j2, q);
        } else {
            if spec_last_assoc(t, q) is Some {
                let i = lemma_last_assoc_witness(t, q);
                assert(i != p);
                let j = if i < p {
                    i
                } else {
                    i - 1
                };
                let oj = if replace {
                    if j < p {
                        j
                    } else {
                        j + 1
                    }
                } else {
                    j
                };
                assert(orig[oj] == t[i]);
                lemma_last_assoc_found(orig, oj, q);
            }
        }
    }
}

/// A last-association hit has a witness index.
proof fn lemma_last_assoc_witness(s: Seq<(Seq<char>, Seq<NodeView>)>, q: Seq<char>) -> (i: int)
    requires
        spec_last_assoc(s, q) is Some,
    ensures
        0 <= i < s.len(),
        s[i].0 == q,
        s[i].1 == spec_last_assoc(s, q).unwrap(),
    decreases s.len(),
{
    if s.last().0 == q {
        s.len() - 1
    } else {
        let i = lemma_last_assoc_witness(s.drop_last(), q);
        assert(s.drop_last()[i] == s[i]);
        i
    }
}

/// With pairwise distinct keys, any entry carrying the key decides the map.
proof fn lemma_last_assoc_found(s: Seq<(Seq<char>, Seq<NodeView>)>, i: int, q: Seq<char>)
    requires
        0 <= i < s.len(),
        s[i].0 == q,
        forall|a: int, b: int|
            0 <= a < b < s.len() ==> (#[trigger] s[a]).0 != (#[trigger] s[b]).0,
    ensures
        spec_last_assoc(s, q) == Some(s[i].1),
    decreases s.len(),
{
    if i == s.len() - 1 {
    } else {
        assert(s[i].0 != s[s.len() - 1].0);
        assert(s.drop_last()[i] == s[i]);
        lemma_last_assoc_found(s.drop_last(), i, q);
    }
}

/// Nothing or exactly one entry decides the last association; with distinct
/// keys a miss means no entry carries the key.
proof fn lemma_last_assoc_unique(s: Seq<(Seq<char>, Seq<NodeView>)>, q: Seq<char>)
    ensures
        spec_last_assoc(s, q) is None ==> forall|i: int|
            0 <= i < s.len() ==> (#[trigger] s[i]).0 != q,
    decreases s.len(),
{
    if s.len() > 0 {
        lemma_last_assoc_unique(s.drop_last(), q);
        if spec_last_assoc(s, q) is None {
            assert forall|i: int| 0 <= i < s.len() implies (#[trigger] s[i]).0 != q by {
                if i < s.len() - 1 {
                    assert(s.drop_last()[i] == s[i]);
                }
            }
        }
    }
}


/// A styling hint marking a project-title document.
pub open spec fn spec_is_title_props(p: Seq<char>) -> bool {
    "{ rustCrateTitle: true"@.is_prefix_of(p)
}

/// The (id, label) pairs of the project-title documents among a node list.
pub open spec fn spec_titles_in(nodes: Seq<NodeView>) -> Seq<(Seq<char>, Seq<char>)>
    decreases nodes.len(),
{
    if nodes.len() == 0 {
        Seq::empty()
    } else {
        let rest = spec_titles_in(nodes.drop_first(), );
        match nodes[0] {
            NodeView::Doc { id, label, custom_props } => match (label, custom_props) {
                (Some(l), Some(p)) => if spec_is_title_props(p) {
                    seq![(id, l)] + rest
                } else {
                    rest
                },
                _ => rest,
            },
            _ => rest,
        }
    }
}

/// The project-title pairs across a whole set, entry after entry.
pub open spec fn spec_titles(entries: Seq<(Seq<char>, Seq<NodeView>)>) -> Seq<
    (Seq<char>, Seq<char>),
>
    decreases entries.len(),
{
    if entries.len() == 0 {
        Seq::empty()
    } else {
        spec_titles_in(entries[0].1) + spec_titles(entries.drop_first())
    }
}

/// Ids already collected.
pub open spec fn spec_ids_of(pairs: Seq<(Seq<char>, Seq<char>)>) -> Seq<Seq<char>> {
    pairs.map_values(|p: (Seq<char>, Seq<char>)| p.0)
}

/// Deduplicate by id, keeping the first occurrence.
pub open spec fn spec_dedup_titles(
    s: Seq<(Seq<char>, Seq<char>)>,
    seen: Seq<Seq<char>>,
) -> Seq<(Seq<char>, Seq<char>)>
    decreases s.len(),
{
    if s.len() == 0 {
        Seq::empty()
    } else if seen.contains(s[0].0) {
        spec_dedup_titles(s.drop_first(), seen)
    } else {
        seq![s[0]] + spec_dedup_titles(s.drop_first(), seen.push(s[0].0))
    }
}

/// Stable insertion by id.
pub open spec fn spec_insert_title(
    x: (Seq<char>, Seq<char>),
    s: Seq<(Seq<char>, Seq<char>)>,
) -> Seq<(Seq<char>, Seq<char>)>
    decreases s.len(),
{
    if s.len() == 0 {
        seq![x]
    } else if !lex_lt(x.0, s[0].0) {
        seq![s[0]] + spec_insert_title(x, s.drop_first())
    } else {
        seq![x] + s
    }
}

/// Stable sort by id.
pub open spec fn spec_sort_titles(s: Seq<(Seq<char>, Seq<char>)>) -> Seq<(Seq<char>, Seq<char>)>
    decreases s.len(),
{
    if s.len() == 0 {
        Seq::empty()
    } else {
        spec_insert_title(s.last(), spec_sort_titles(s.drop_last()))
    }
}

/// The rendered root list: one document line per project.
pub open spec fn spec_root_lines(s: Seq<(Seq<char>, Seq<char>)>) -> Seq<char>
    decreases s.len(),
{
    if s.len() == 0 {
        Seq::empty()
    } else {
        "  { type: 'doc', id: '"@ + s[0].0 + "', label: '"@ + s[0].1
            + "', className: 'rust-mod' },\n"@ + spec_root_lines(s.drop_first())
    }
}

/// The recomputed cross-project root: every distinct project title in the
/// merged set, sorted by document id, one navigation line each.
pub open spec fn spec_root_sidebar(entries: Seq<(Seq<char>, Seq<NodeView>)>) -> Seq<char> {
    spec_root_lines(spec_sort_titles(spec_dedup_titles(spec_titles(entries), Seq::empty())))
}

proof fn lemma_insert_title_split(
    x: (Seq<char>, Seq<char>),
    s: Seq<(Seq<char>, Seq<char>)>,
    p: int,
)
    requires
        0 <= p <= s.len(),
        forall|j: int| 0 <= j < p ==> !lex_lt(x.0, (#[trigger] s[j]).0),
        p < s.len() ==> lex_lt(x.0, s[p].0),
    ensures
        spec_insert_title(x, s) == s.insert(p, x),
    decreases p,
{
    if p == 0 {
        if s.len() == 0 {
            assert(spec_insert_title(x, s) =~= s.insert(0, x));
        } else {
            assert(spec_insert_title(x, s) =~= seq![x] + s);
            assert(s.insert(0, x) =~= seq![x] + s);
        }
    } else {
        assert(!lex_lt(x.0, s[0].0));
        lemma_insert_title_split(x, s.drop_first(), p - 1);
        assert(spec_insert_title(x, s) =~= seq![s[0]] + s.drop_first().insert(p - 1, x));
        assert(s.insert(p, x) =~= seq![s[0]] + s.drop_first().insert(p - 1, x));
    }
}

/// Collect the project-title pairs of one node list.
fn titles_in(nodes: &Vec<SidebarItem>, out: &mut Vec<(String, String)>)
    ensures
        final(out)@.map_values(|p: (String, String)| (p.0@, p.1@)) == old(out)@.map_values(
            |p: (String, String)| (p.0@, p.1@),
        ) + spec_titles_in(nodes_view(nodes@)),
{
    let ghost nv = nodes_view(nodes@);
    let ghost base = old(out)@.map_values(|p: (String, String)| (p.0@, p.1@));
    let ghost mut done: Seq<(Seq<char>, Seq<char>)> = Seq::empty();
    let mut i: usize = 0;
    proof {
        crate::sidebar::lemma_nodes_view_len(nodes@);
        assert(nv.skip(0) =~= nv);
        assert(out@.map_values(|p: (String, String)| (p.0@, p.1@)) =~= base + done);
        assert(spec_titles_in(nv) =~= done + spec_titles_in(nv.skip(0)));
    }
    while i < nodes.len()
        invariant
            i <= nodes@.len(),
            nv == nodes_view(nodes@),
            nv.len() == nodes@.len(),
            out@.map_values(|p: (String, String)| (p.0@, p.1@)) =~= base + done,
            spec_titles_in(nv) =~= done + spec_titles_in(nv.skip(i as int)),
        decreases nodes@.len() - i,
    {
        proof {
            crate::sidebar::lemma_nodes_view_index(nodes@, i as int);
            assert(nv.skip(i as int)[0] == nv[i as int]);
            assert(nv.skip(i as int).drop_first() =~= nv.skip(i as int + 1));
        }
        match &nodes[i] {
            SidebarItem::Doc { id, label, custom_props } => {
                match (label, custom_props) {
                    (Some(l), Some(p)) => {
                        if crate::strutil::str_starts_with(p.as_str(), "{ rustCrateTitle: true") {
                            let ghost o0 = out@;
                            out.push((id.clone(), l.clone()));
                            proof {
                                assert(out@.map_values(|p2: (String, String)| (p2.0@, p2.1@))
                                    =~= o0.map_values(
                                    |p2: (String, String)| (p2.0@, p2.1@),
                                ).push((id@, l@)));
                                done = done.push((id@, l@));
                            }
                        }
                    },
                    _ => {},
                }
            },
            _ => {},
        }
        i = i + 1;
    }
    proof {
        assert(nv.skip(nv.len() as int).len() == 0);
        assert(spec_titles_in(nv.skip(nv.len() as int)) =~= Seq::<(Seq<char>, Seq<char>)>::empty());
        assert(done =~= spec_titles_in(nv));
    }
}


/// Membership of a string view in a list.
fn seen_contains(seen: &Vec<String>, x: &str) -> (r: bool)
    ensures
        r == crate::strutil::seq_views(seen@).contains(x@),
{
    let mut i: usize = 0;
    while i < seen.len()
        invariant
            i <= seen@.len(),
            forall|j: int| 0 <= j < i ==> crate::strutil::seq_views(seen@)[j] != x@,
        decreases seen@.len() - i,
    {
        if str_eq(seen[i].as_str(), x) {
            proof {
                assert(crate::strutil::seq_views(seen@)[i as int] == x@);
            }
            return true;
        }
        i = i + 1;
    }
    proof {
        if crate::strutil::seq_views(seen@).contains(x@) {
            let j = choose|j: int|
                0 <= j < seen@.len() && crate::strutil::seq_views(seen@)[j] == x@;
            assert(crate::strutil::seq_views(seen@)[j] == x@);
        }
    }
    false
}

/// Recompute the cross-project root from a merged set: one navigation line
/// per distinct project title, sorted by document id.
#[verifier::rlimit(100)]
pub fn generate_root_sidebar(merged: &SidebarSet) -> (r: String)
    ensures
        r@ == spec_root_sidebar(entry_views(merged.entries@)),
{
    let ghost ev = entry_views(merged.entries@);
    // collect every project-title document
    let mut pairs: Vec<(String, String)> = Vec::new();
    let mut i: usize = 0;
    proof {
        assert(ev.len() == merged.entries@.len());
        assert(ev.skip(0) =~= ev);
        assert(pairs@.map_values(|p: (String, String)| (p.0@, p.1@)) =~= Seq::<
            (Seq<char>, Seq<char>),
        >::empty());
        assert(spec_titles(ev) =~= pairs@.map_values(|p: (String, String)| (p.0@, p.1@))
            + spec_titles(ev.skip(0)));
    }
    while i < merged.entries.len()
        invariant
            i <= merged.entries@.len(),
            ev == entry_views(merged.entries@),
            ev.len() == merged.entries@.len(),
            spec_titles(ev) =~= pairs@.map_values(|p: (String, String)| (p.0@, p.1@))
                + spec_titles(ev.skip(i as int)),
        decreases merged.entries@.len() - i,
    {
        proof {
            assert(ev.skip(i as int)[0] == ev[i as int]);
            assert(ev[i as int].1 == nodes_view(merged.entries@[i as int].1@));
            assert(ev.skip(i as int).drop_first() =~= ev.skip(i as int + 1));
        }
        titles_in(&merged.entries[i].1, &mut pairs);
        i = i + 1;
    }
    proof {
        assert(ev.skip(ev.len() as int).len() == 0);
        assert(spec_titles(ev.skip(ev.len() as int)) =~= Seq::<(Seq<char>, Seq<char>)>::empty());
    }
    let ghost allp = pairs@.map_values(|p: (String, String)| (p.0@, p.1@));
    proof {
        assert(allp =~= spec_titles(ev));
    }
    // keep the first occurrence of each id
    let mut seen: Vec<String> = Vec::new();
    let mut ded: Vec<(String, String)> = Vec::new();
    let mut j: usize = 0;
    proof {
        assert(allp.skip(0) =~= allp);
        assert(crate::strutil::seq_views(seen@) =~= Seq::<Seq<char>>::empty());
        assert(ded@.map_values(|p: (String, String)| (p.0@, p.1@)) =~= Seq::<
            (Seq<char>, Seq<char>),
        >::empty());
        assert(spec_dedup_titles(allp, Seq::empty()) =~= ded@.map_values(
            |p: (String, String)| (p.0@, p.1@),
        ) + spec_dedup_titles(allp.skip(0), crate::strutil::seq_views(seen@)));
    }
    while j < pairs.len()
        invariant
            j <= pairs@.len(),
            allp == pairs@.map_values(|p: (String, String)| (p.0@, p.1@)),
            allp.len() == pairs@.len(),
            spec_dedup_titles(allp, Seq::empty()) =~= ded@.map_values(
                |p: (String, String)| (p.0@, p.1@),
            ) + spec_dedup_titles(allp.skip(j as int), crate::strutil::seq_views(seen@)),
        decreases pairs@.len() - j,
    {
        proof {
            assert(allp.skip(j as int)[0] == allp[j as int]);
            assert(allp[j as int] == (pairs@[j as int].0@, pairs@[j as int].1@));
            assert(allp.skip(j as int).drop_first() =~= allp.skip(j as int + 1));
        }
        if seen_contains(&seen, pairs[j].0.as_str()) {
            proof {
                assert(spec_dedup_titles(allp.skip(j as int), crate::strutil::seq_views(seen@))
                    =~= spec_dedup_titles(allp.skip(j + 1), crate::strutil::seq_views(seen@)));
            }
        } else {
            let ghost d0 = ded@;
            let ghost s0 = seen@;
            ded.push((pairs[j].0.clone(), pairs[j].1.clone()));
            seen.push(pairs[j].0.clone());
            proof {
                assert(ded@.map_values(|p: (String, String)| (p.0@, p.1@)) =~= d0.map_values(
                    |p: (String, String)| (p.0@, p.1@),
                ).push(allp[j as int]));
                assert(crate::strutil::seq_views(seen@) =~= crate::strutil::seq_views(s0).push(
                    allp[j as int].0,
                ));
                assert(spec_dedup_titles(allp.skip(j as int), crate::strutil::seq_views(s0)) =~= seq![
                    allp[j as int],
                ] + spec_dedup_titles(allp.skip(j + 1), crate::strutil::seq_views(seen@)));
            }
        }
        j = j + 1;
    }
    proof {
        assert(allp.skip(allp.len() as int).len() == 0);
        assert(spec_dedup_titles(allp.skip(allp.len() as int), crate::strutil::seq_views(seen@))
            =~= Seq::<(Seq<char>, Seq<char>)>::empty());
    }
    let ghost dedv = ded@.map_values(|p: (String, String)| (p.0@, p.1@));
    proof {
        assert(dedv =~= spec_dedup_titles(allp, Seq::empty()));
    }
    // sort by id, stably
    let mut sorted: Vec<(String, String)> = Vec::new();
    let mut a: usize = 0;
    proof {
        assert(dedv.take(0) =~= Seq::<(Seq<char>, Seq<char>)>::empty());
        assert(sorted@.map_values(|p: (String, String)| (p.0@, p.1@)) =~= spec_sort_titles(
            dedv.take(0),
        ));
    }
    while a < ded.len()
        invariant
            a <= ded@.len(),
            dedv == ded@.map_values(|p: (String, String)| (p.0@, p.1@)),
            dedv.len() == ded@.len(),
            sorted@.len() == a,
            sorted@.map_values(|p: (String, String)| (p.0@, p.1@)) == spec_sort_titles(
                dedv.take(a as int),
            ),
        decreases ded@.len() - a,
    {
        let ghost smap = sorted@.map_values(|p: (String, String)| (p.0@, p.1@));
        let x0 = ded[a].0.clone();
        let x1 = ded[a].1.clone();
        proof {
            assert(dedv[a as int] == (ded@[a as int].0@, ded@[a as int].1@));
        }
        let mut p: usize = 0;
        loop
            invariant
                p <= sorted@.len(),
                sorted@.len() == a,
                a < ded@.len(),
                x0@ == dedv[a as int].0,
                dedv == ded@.map_values(|q2: (String, String)| (q2.0@, q2.1@)),
                dedv.len() == ded@.len(),
                smap == sorted@.map_values(|q2: (String, String)| (q2.0@, q2.1@)),
                forall|q2: int| 0 <= q2 < p ==> !lex_lt(x0@, (#[trigger] smap[q2]).0),
            ensures
                p <= sorted@.len(),
                sorted@.len() == a,
                smap == sorted@.map_values(|q2: (String, String)| (q2.0@, q2.1@)),
                forall|q2: int| 0 <= q2 < p ==> !lex_lt(x0@, (#[trigger] smap[q2]).0),
                p < sorted@.len() ==> lex_lt(x0@, smap[p as int].0),
            decreases sorted@.len() - p,
        {
            if p == sorted.len() {
                break;
            }
            proof {
                assert(smap[p as int] == (sorted@[p as int].0@, sorted@[p as int].1@));
            }
            if str_lt(x0.as_str(), sorted[p].0.as_str()) {
                break;
            }
            p = p + 1;
        }
        let ghost sm0 = sorted@;
        sorted.insert(p, (x0, x1));
        proof {
            assert(sorted@.map_values(|q2: (String, String)| (q2.0@, q2.1@)) =~= smap.insert(
                p as int,
                dedv[a as int],
            ));
            lemma_insert_title_split(dedv[a as int], smap, p as int);
            assert(dedv.take(a + 1).drop_last() =~= dedv.take(a as int));
            assert(dedv.take(a + 1).last() == dedv[a as int]);
        }
        a = a + 1;
    }
    proof {
        assert(dedv.take(dedv.len() as int) =~= dedv);
    }
    let ghost sortv = sorted@.map_values(|p: (String, String)| (p.0@, p.1@));
    // render
    let mut out = String::new();
    let mut q: usize = 0;
    proof {
        assert(sortv.skip(0) =~= sortv);
        assert(spec_root_lines(sortv) =~= out@ + spec_root_lines(sortv.skip(0)));
    }
    while q < sorted.len()
        invariant
            q <= sorted@.len(),
            sortv == sorted@.map_values(|p: (String, String)| (p.0@, p.1@)),
            sortv.len() == sorted@.len(),
            spec_root_lines(sortv) =~= out@ + spec_root_lines(sortv.skip(q as int)),
        decreases sorted@.len() - q,
    {
        proof {
            assert(sortv.skip(q as int)[0] == sortv[q as int]);
            assert(sortv[q as int] == (sorted@[q as int].0@, sorted@[q as int].1@));
            assert(sortv.skip(q as int).drop_first() =~= sortv.skip(q as int + 1));
        }
        out.append("  { type: 'doc', id: '");
        out.append(sorted[q].0.as_str());
        out.append("', label: '");
        out.append(sorted[q].1.as_str());
        out.append("', className: 'rust-mod' },\n");
        q = q + 1;
    }
    proof {
        assert(sortv.skip(sortv.len() as int).len() == 0);
        assert(spec_root_lines(sortv.skip(sortv.len() as int)) =~= Seq::<char>::empty());
        assert(out@ =~= spec_root_sidebar(ev));
    }
    out
}

} // verus!
