//! The item store: a read-only view over the input graph, with a flat item
//! table, a root item id, and the authoritative path table.

use vstd::prelude::*;

verus! {

/// The kind tag of one documented item.
#[derive(Clone, Copy, PartialEq, Eq, Structural, Debug)]
pub enum ItemKind {
    /// A module.
    Module,
    /// A struct.
    Struct,
    /// An enum.
    Enum,
    /// A free function or method.
    Function,
    /// A trait.
    Trait,
    /// A constant.
    Constant,
    /// A type alias.
    TypeAlias,
    /// A re-export of another item (single target or wildcard).
    Reexport,
    /// An impl block.
    ImplBlock,
    /// A struct field.
    Field,
    /// An enum variant.
    Variant,
    /// A declarative macro.
    Macro,
    /// A procedural macro.
    ProcMacro,
    /// A static.
    Static,
    /// A primitive type.
    Primitive,
    /// Any other kind; never rendered on a page of its own.
    Other,
}

/// Item visibility: public, or restricted in any way.
#[derive(Clone, Copy, PartialEq, Eq, Structural, Debug)]
pub enum Visibility {
    /// Visible everywhere.
    Public,
    /// Crate-private, path-restricted or inherited visibility.
    Restricted,
}

/// One documented item. Immutable once loaded.
pub struct Item {
    /// Item name; a re-export or impl block may have none.
    pub name: Option<String>,
    /// Visibility of the item.
    pub visibility: Visibility,
    /// Kind tag.
    pub kind: ItemKind,
    /// Documentation text, if any.
    pub docs: Option<String>,
    /// For a module: the ids of its members, in declaration order.
    pub members: Vec<u64>,
    /// For a re-export: the target item id, when the input recorded one.
    pub target: Option<u64>,
    /// For a re-export: whether it is a wildcard (module-wide) re-export.
    pub is_glob: bool,
    /// For an impl block: the id of the type it is for, when known.
    pub impl_for: Option<u64>,
    /// For an impl block: whether it implements a trait.
    pub trait_impl: bool,
    /// Module path derived from the source location, used as a fallback when
    /// the path table has no entry. Empty means the project root.
    pub source_hint: Option<Vec<String>>,
}

/// One entry of the authoritative path table.
pub struct PathEntry {
    /// Fully-qualified path segments, e.g. `[project, module, Name]`.
    pub segments: Vec<String>,
    /// Origin marker: 0 for the local project, anything else is external.
    pub origin: u64,
    /// Kind tag recorded for the item.
    pub kind: ItemKind,
}

/// The read-only input graph for one conversion run.
pub struct ItemStore {
    /// Id of the root module item.
    pub root: u64,
    /// Item table: id to item record; the first entry for an id wins.
    pub items: Vec<(u64, Item)>,
    /// Path table: id to path entry; the first entry for an id wins.
    pub paths: Vec<(u64, PathEntry)>,
    /// Origin marker to the external library's real name.
    pub external_crates: Vec<(u64, String)>,
    /// Version of the project being converted, if known.
    pub crate_version: Option<String>,
}

/// First-match lookup in an association list.
pub open spec fn spec_assoc<T>(entries: Seq<(u64, T)>, key: u64) -> Option<T>
    decreases entries.len(),
{
    if entries.len() == 0 {
        None
    } else if entries[0].0 == key {
        Some(entries[0].1)
    } else {
        spec_assoc(entries.drop_first(), key)
    }
}

/// A key has an entry exactly when some pair carries it.
pub proof fn lemma_assoc_some_iff_contains<T>(entries: Seq<(u64, T)>, key: u64)
    ensures
        (spec_assoc(entries, key) is Some) == (exists|i: int|
            0 <= i < entries.len() && entries[i].0 == key),
    decreases entries.len(),
{
    if entries.len() > 0 {
        lemma_assoc_some_iff_contains(entries.drop_first(), key);
        if entries[0].0 != key {
            if exists|i: int| 0 <= i < entries.len() && entries[i].0 == key {
                let i = choose|i: int| 0 <= i < entries.len() && entries[i].0 == key;
                assert(entries.drop_first()[i - 1].0 == key);
            }
        }
    }
}

/// First-match lookup, executable form.
pub fn assoc_find<'a, T>(entries: &'a Vec<(u64, T)>, key: u64) -> (r: Option<&'a T>)
    ensures
        match r {
            Some(t) => spec_assoc(entries@, key) == Some(*t),
            None => spec_assoc(entries@, key) is None,
        },
{
    let mut j: usize = 0;
    proof {
        assert(entries@.skip(0) =~= entries@);
    }
    while j < entries.len()
        invariant
            j <= entries@.len(),
            spec_assoc(entries@, key) == spec_assoc(entries@.skip(j as int), key),
        decreases entries@.len() - j,
    {
        proof {
            assert(entries@.skip(j as int)[0] == entries@[j as int]);
        }
        if entries[j].0 == key {
            return Some(&entries[j].1);
        }
        proof {
            assert(entries@.skip(j as int).drop_first() =~= entries@.skip(j as int + 1));
        }
        j = j + 1;
    }
    proof {
        assert(entries@.skip(entries@.len() as int).len() == 0);
    }
    None
}

impl ItemStore {
    /// The item record for an id, if any.
    pub open spec fn spec_item(&self, id: u64) -> Option<Item> {
        spec_assoc(self.items@, id)
    }

    /// The path entry for an id, if any.
    pub open spec fn spec_path(&self, id: u64) -> Option<PathEntry> {
        spec_assoc(self.paths@, id)
    }

    /// The external library name for an origin marker, if any.
    pub open spec fn spec_ext_crate(&self, origin: u64) -> Option<String> {
        spec_assoc(self.external_crates@, origin)
    }

    /// Item lookup.
    pub fn find_item(&self, id: u64) -> (r: Option<&Item>)
        ensures
            match r {
                Some(it) => self.spec_item(id) == Some(*it),
                None => self.spec_item(id) is None,
            },
    {
        assoc_find(&self.items, id)
    }

    /// Path-table lookup.
    pub fn find_path(&self, id: u64) -> (r: Option<&PathEntry>)
        ensures
            match r {
                Some(pe) => self.spec_path(id) == Some(*pe),
                None => self.spec_path(id) is None,
            },
    {
        assoc_find(&self.paths, id)
    }

    /// External-library name lookup.
    pub fn find_ext_crate(&self, origin: u64) -> (r: Option<&String>)
        ensures
            match r {
                Some(n) => self.spec_ext_crate(origin) == Some(*n),
                None => self.spec_ext_crate(origin) is None,
            },
    {
        assoc_find(&self.external_crates, origin)
    }
}

/// The renderable kinds: the ones that get a page of their own.
pub open spec fn spec_renderable(k: ItemKind) -> bool {
    match k {
        ItemKind::Struct => true,
        ItemKind::Enum => true,
        ItemKind::Function => true,
        ItemKind::Trait => true,
        ItemKind::Module => true,
        ItemKind::Constant => true,
        ItemKind::TypeAlias => true,
        _ => false,
    }
}

/// Whether this item's kind gets a page of its own.
pub fn can_format_item(item: &Item) -> (r: bool)
    ensures
        r == spec_renderable(item.kind),
{
    match item.kind {
        ItemKind::Struct => true,
        ItemKind::Enum => true,
        ItemKind::Function => true,
        ItemKind::Trait => true,
        ItemKind::Module => true,
        ItemKind::Constant => true,
        ItemKind::TypeAlias => true,
        _ => false,
    }
}

/// Whether the item is public.
pub fn is_public(item: &Item) -> (r: bool)
    ensures
        r == (item.visibility == Visibility::Public),
{
    match item.visibility {
        Visibility::Public => true,
        Visibility::Restricted => false,
    }
}

/// Whether the visibility policy admits the item.
pub open spec fn spec_passes_policy(it: Item, include_private: bool) -> bool {
    include_private || it.visibility == Visibility::Public
}

/// The rustdoc-style filename prefix for an item kind; modules have none.
pub open spec fn spec_item_prefix(k: ItemKind) -> Seq<char> {
    match k {
        ItemKind::Function => "fn."@,
        ItemKind::Struct => "struct."@,
        ItemKind::Enum => "enum."@,
        ItemKind::Trait => "trait."@,
        ItemKind::Constant => "constant."@,
        ItemKind::TypeAlias => "type."@,
        _ => ""@,
    }
}

/// The rustdoc-style filename prefix (e.g. `fn.`, `struct.`).
pub fn get_item_prefix(item: &Item) -> (r: &'static str)
    ensures
        r@ == spec_item_prefix(item.kind),
{
    match item.kind {
        ItemKind::Function => "fn.",
        ItemKind::Struct => "struct.",
        ItemKind::Enum => "enum.",
        ItemKind::Trait => "trait.",
        ItemKind::Constant => "constant.",
        ItemKind::TypeAlias => "type.",
        _ => "",
    }
}

/// The human-readable type label for an item kind.
pub open spec fn spec_item_type_label(k: ItemKind) -> Seq<char> {
    match k {
        ItemKind::Function => "Function"@,
        ItemKind::Struct => "Struct"@,
        ItemKind::Enum => "Enum"@,
        ItemKind::Trait => "Trait"@,
        ItemKind::Constant => "Constant"@,
        ItemKind::TypeAlias => "Type"@,
        ItemKind::Module => "Module"@,
        _ => ""@,
    }
}

/// The human-readable type label (e.g. `Function`, `Struct`).
pub fn get_item_type_label(item: &Item) -> (r: &'static str)
    ensures
        r@ == spec_item_type_label(item.kind),
{
    match item.kind {
        ItemKind::Function => "Function",
        ItemKind::Struct => "Struct",
        ItemKind::Enum => "Enum",
        ItemKind::Trait => "Trait",
        ItemKind::Constant => "Constant",
        ItemKind::TypeAlias => "Type",
        ItemKind::Module => "Module",
        _ => "",
    }
}

} // verus!
