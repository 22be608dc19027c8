//! Small helpers over names and the item graph: short type names, synthetic
//! lifetimes, compiler-internal traits, and impl collection.

use crate::store::{Item, ItemKind, ItemStore};
use crate::strutil::str_eq;
use vstd::prelude::*;

verus! {

/// The scan for the start of the last path piece: two colons separate
/// pieces, scanned left to right.
pub open spec fn spec_piece_start(s: Seq<char>, i: int, start: int) -> int
    decreases s.len() - i,
{
    if i < 0 || i + 1 >= s.len() {
        start
    } else if s[i] == ':' && s[i + 1] == ':' {
        spec_piece_start(s, i + 2, i + 2)
    } else {
        spec_piece_start(s, i + 1, start)
    }
}

/// The last piece of a `::`-separated path.
pub open spec fn spec_short_name(s: Seq<char>) -> Seq<char> {
    s.skip(spec_piece_start(s, 0, 0))
}

/// The short name of a fully-qualified type path: everything after the last
/// separator, or the whole path when it has none.
pub fn get_short_type_name(full_path: &str) -> (r: String)
    ensures
        r@ == spec_short_name(full_path@),
{
    let ls = full_path.unicode_len();
    let mut i: usize = 0;
    let mut start: usize = 0;
    while ls >= 1 && i < ls - 1
        invariant
            start <= i,
            i <= ls,
            ls == full_path@.len(),
            spec_piece_start(full_path@, 0, 0) == spec_piece_start(
                full_path@,
                i as int,
                start as int,
            ),
        decreases ls - i,
    {
        if full_path.get_char(i) == ':' && full_path.get_char(i + 1) == ':' {
            i = i + 2;
            start = i;
        } else {
            i = i + 1;
        }
    }
    let piece = full_path.substring_char(start, ls);
    proof {
        assert(piece@ =~= full_path@.skip(start as int));
    }
    piece.to_owned()
}

/// Whether every character from position `i` on is an ASCII digit.
pub open spec fn all_digits_from(s: Seq<char>, i: int) -> bool {
    forall|j: int| i <= j < s.len() ==> '0' <= #[trigger] s[j] <= '9'
}

/// Digit test for a suffix.
fn digits_from(s: &str, from: usize) -> (r: bool)
    requires
        from <= s@.len(),
    ensures
        r == all_digits_from(s@, from as int),
{
    let ls = s.unicode_len();
    let mut i = from;
    while i < ls
        invariant
            from <= i <= ls,
            ls == s@.len(),
            forall|j: int| from <= j < i ==> '0' <= #[trigger] s@[j] <= '9',
        decreases ls - i,
    {
        let c = s.get_char(i);
        if !(c >= '0' && c <= '9') {
            return false;
        }
        i = i + 1;
    }
    true
}

/// A compiler-generated synthetic lifetime name: the elided lifetime, a
/// numbered elided lifetime, a numbered `'life` lifetime, or `'async_trait`.
pub open spec fn spec_synthetic_lifetime(n: Seq<char>) -> bool {
    ||| n == "'_"@
    ||| ("'_"@.is_prefix_of(n) && all_digits_from(n, 2))
    ||| ("'life"@.is_prefix_of(n) && all_digits_from(n, 5))
    ||| n == "'async_trait"@
}

/// Whether a lifetime name is compiler-generated.
pub fn is_synthetic_lifetime(name: &str) -> (r: bool)
    ensures
        r == spec_synthetic_lifetime(name@),
{
    proof {
        reveal_strlit("'_");
        reveal_strlit("'life");
    }
    if str_eq(name, "'_") || str_eq(name, "'async_trait") {
        return true;
    }
    if crate::strutil::str_starts_with(name, "'_") {
        if digits_from(name, 2) {
            return true;
        }
    }
    if crate::strutil::str_starts_with(name, "'life") {
        if digits_from(name, 5) {
            return true;
        }
    }
    false
}

/// The marker traits the compiler implements on its own; they are noise in
/// documentation.
pub open spec fn spec_compiler_internal_trait(n: Seq<char>) -> bool {
    ||| n == "StructuralPartialEq"@
    ||| n == "StructuralEq"@
    ||| n == "Freeze"@
    ||| n == "Unpin"@
    ||| n == "RefUnwindSafe"@
    ||| n == "UnwindSafe"@
}

/// Whether a trait is a compiler-internal marker trait.
pub fn is_compiler_internal_trait(trait_name: &str) -> (r: bool)
    ensures
        r == spec_compiler_internal_trait(trait_name@),
{
    str_eq(trait_name, "StructuralPartialEq") || str_eq(trait_name, "StructuralEq") || str_eq(
        trait_name,
        "Freeze",
    ) || str_eq(trait_name, "Unpin") || str_eq(trait_name, "RefUnwindSafe") || str_eq(
        trait_name,
        "UnwindSafe",
    )
}

/// The ids of impl blocks for a type, split into inherent and trait impls,
/// in item-table order.
pub open spec fn spec_impls_for(items: Seq<(u64, Item)>, tid: u64, trait_ones: bool) -> Seq<u64>
    decreases items.len(),
{
    if items.len() == 0 {
        Seq::empty()
    } else {
        let rest = spec_impls_for(items.drop_first(), tid, trait_ones);
        let it = items[0].1;
        if it.kind == ItemKind::ImplBlock && it.impl_for == Some(tid) && it.trait_impl
            == trait_ones {
            seq![items[0].0] + rest
        } else {
            rest
        }
    }
}

/// Collect the impl blocks recorded for a type: first the inherent impls,
/// then the trait impls, each in item-table order.
pub fn collect_impls_for_type(store: &ItemStore, type_id: u64) -> (r: (Vec<u64>, Vec<u64>))
    ensures
        r.0@ == spec_impls_for(store.items@, type_id, false),
        r.1@ == spec_impls_for(store.items@, type_id, true),
{
    let mut inherent: Vec<u64> = Vec::new();
    let mut trait_impls: Vec<u64> = Vec::new();
    let mut i: usize = 0;
    proof {
        assert(store.items@.skip(0) =~= store.items@);
        assert(spec_impls_for(store.items@, type_id, false) =~= inherent@ + spec_impls_for(
            store.items@.skip(0),
            type_id,
            false,
        ));
        assert(spec_impls_for(store.items@, type_id, true) =~= trait_impls@ + spec_impls_for(
            store.items@.skip(0),
            type_id,
            true,
        ));
    }
    while i < store.items.len()
        invariant
            i <= store.items@.len(),
            spec_impls_for(store.items@, type_id, false) =~= inherent@ + spec_impls_for(
                store.items@.skip(i as int),
                type_id,
                false,
            ),
            spec_impls_for(store.items@, type_id, true) =~= trait_impls@ + spec_impls_for(
                store.items@.skip(i as int),
                type_id,
                true,
            ),
        decreases store.items@.len() - i,
    {
        proof {
            assert(store.items@.skip(i as int)[0] == store.items@[i as int]);
            assert(store.items@.skip(i as int).drop_first() =~= store.items@.skip(i + 1));
        }
        let entry = &store.items[i];
        let id = entry.0;
        let it = &entry.1;
        let is_match = matches!(it.kind, ItemKind::ImplBlock) && match it.impl_for {
            Some(t) => t == type_id,
            None => false,
        };
        if is_match {
            if it.trait_impl {
                trait_impls.push(id);
            } else {
                inherent.push(id);
            }
        }
        i = i + 1;
    }
    proof {
        assert(store.items@.skip(store.items@.len() as int).len() == 0);
        assert(spec_impls_for(store.items@.skip(store.items@.len() as int), type_id, false)
            =~= Seq::<u64>::empty());
        assert(spec_impls_for(store.items@.skip(store.items@.len() as int), type_id, true)
            =~= Seq::<u64>::empty());
    }
    (inherent, trait_impls)
}

} // verus!
