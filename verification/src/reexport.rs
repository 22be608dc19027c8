//! Re-export resolution: follow a possibly-chained re-export to its ultimate
//! target item, with cycle and depth protection. Total by construction: a
//! malformed or cyclic input degrades to "unresolved", never to a loop.

use crate::store::{Item, ItemKind, ItemStore, spec_assoc};
use vstd::prelude::*;

verus! {

/// Largest chain depth that resolution will follow.
pub const MAX_CHAIN_DEPTH: u64 = 10;

/// Resolution with an explicit visited set and remaining fuel. Returns the id
/// of the first item on the chain that is not a re-export with a recorded
/// target, or `None` when the chain is broken, cyclic or too deep.
pub open spec fn spec_resolve(store: &ItemStore, id: u64, visited: Set<u64>, fuel: nat) -> Option<
    u64,
>
    decreases fuel,
{
    if fuel == 0 {
        None
    } else if visited.contains(id) {
        None
    } else {
        match spec_assoc(store.items@, id) {
            None => None,
            Some(it) => {
                if it.kind == ItemKind::Reexport {
                    match it.target {
                        Some(t) => spec_resolve(store, t, visited.insert(id), (fuel - 1) as nat),
                        None => Some(id),
                    }
                } else {
                    Some(id)
                }
            },
        }
    }
}

/// Resolution of a full chain, from a fresh visited set.
pub open spec fn spec_resolve_chain(store: &ItemStore, id: u64) -> Option<u64> {
    spec_resolve(store, id, Set::empty(), (MAX_CHAIN_DEPTH + 1) as nat)
}

proof fn lemma_push_to_set(v: Seq<u64>, x: u64)
    ensures
        v.push(x).to_set() =~= v.to_set().insert(x),
{
    assert forall|y: u64| v.push(x).to_set().contains(y) implies v.to_set().insert(x).contains(
        y,
    ) by {
        let i = choose|i: int| 0 <= i < v.push(x).len() && v.push(x)[i] == y;
        if i < v.len() {
            assert(v[i] == y);
        }
    }
    assert forall|y: u64| v.to_set().insert(x).contains(y) implies v.push(x).to_set().contains(
        y,
    ) by {
        if v.contains(y) {
            let i = choose|i: int| 0 <= i < v.len() && v[i] == y;
            assert(v.push(x)[i] == y);
        } else {
            assert(v.push(x)[v.len() as int] == x);
        }
    }
}

/// Membership test in a vector of ids.
pub fn vec_contains_u64(v: &Vec<u64>, x: u64) -> (r: bool)
    ensures
        r == v@.contains(x),
{
    let mut i: usize = 0;
    while i < v.len()
        invariant
            i <= v@.len(),
            forall|j: int| 0 <= j < i ==> v@[j] != x,
        decreases v@.len() - i,
    {
        if v[i] == x {
            return true;
        }
        i = i + 1;
    }
    false
}

/// Follow a chain of re-exports to the final item. Returns the final id and
/// item on success, `None` when the chain is broken, cyclic or deeper than
/// the configured bound.
pub fn resolve_reexport_chain<'a>(store: &'a ItemStore, item_id: u64) -> (r: Option<(u64, &'a Item)>)
    ensures
        match r {
            Some(p) => spec_resolve_chain(store, item_id) == Some(p.0) && store.spec_item(p.0)
                == Some(*p.1),
            None => spec_resolve_chain(store, item_id) is None,
        },
{
    let mut cur = item_id;
    let mut depth: u64 = 0;
    let mut visited: Vec<u64> = Vec::new();
    proof {
        assert(visited@.to_set() =~= Set::<u64>::empty());
    }
    loop
        invariant
            depth <= MAX_CHAIN_DEPTH + 1,
            spec_resolve_chain(store, item_id) == spec_resolve(
                store,
                cur,
                visited@.to_set(),
                (MAX_CHAIN_DEPTH + 1 - depth) as nat,
            ),
        decreases MAX_CHAIN_DEPTH + 1 - depth,
    {
        if depth > MAX_CHAIN_DEPTH {
            return None;
        }
        if vec_contains_u64(&visited, cur) {
            proof {
                assert(visited@.to_set().contains(cur));
            }
            return None;
        }
        proof {
            assert(!visited@.to_set().contains(cur));
        }
        match store.find_item(cur) {
            None => {
                return None;
            },
            Some(it) => {
                if matches!(it.kind, ItemKind::Reexport) {
                    match it.target {
                        Some(t) => {
                            proof {
                                lemma_push_to_set(visited@, cur);
                            }
                            visited.push(cur);
                            depth = depth + 1;
                            cur = t;
                        },
                        None => {
                            return Some((cur, it));
                        },
                    }
                } else {
                    return Some((cur, it));
                }
            },
        }
    }
}

/// Law: a resolved chain never ends on a re-export that still has a target —
/// resolution either fails or reaches a real item present in the store.
pub proof fn lemma_resolution_reaches_real_item(
    store: &ItemStore,
    id: u64,
    visited: Set<u64>,
    fuel: nat,
)
    ensures
        match spec_resolve(store, id, visited, fuel) {
            Some(rid) => match spec_assoc(store.items@, rid) {
                Some(it) => !(it.kind == ItemKind::Reexport && it.target is Some),
                None => false,
            },
            None => true,
        },
    decreases fuel,
{
    if fuel > 0 && !visited.contains(id) {
        match spec_assoc(store.items@, id) {
            None => {},
            Some(it) => {
                if it.kind == ItemKind::Reexport {
                    match it.target {
                        Some(t) => {
                            lemma_resolution_reaches_real_item(
                                store,
                                t,
                                visited.insert(id),
                                (fuel - 1) as nat,
                            );
                        },
                        None => {},
                    }
                }
            },
        }
    }
}

} // verus!
