//! Tests for the item store, module assigner, hierarchy, re-export
//! resolution and link resolution, on small hand-built graphs.

use cargo_doc_docusaurus::assign::{assign_modules, ModuleBuckets};
use cargo_doc_docusaurus::hierarchy::build_module_hierarchy;
use cargo_doc_docusaurus::links::{default_internal_segments, generate_type_link, LinkContext};
use cargo_doc_docusaurus::misc::{
    get_short_type_name, is_compiler_internal_trait, is_synthetic_lifetime,
};
use cargo_doc_docusaurus::reexport::resolve_reexport_chain;
use cargo_doc_docusaurus::rexmod::build_reexported_modules;
use cargo_doc_docusaurus::store::{Item, ItemKind, ItemStore, PathEntry, Visibility};

fn item(name: Option<&str>, kind: ItemKind) -> Item {
    Item {
        name: name.map(|s| s.to_string()),
        visibility: Visibility::Public,
        kind,
        docs: None,
        members: Vec::new(),
        target: None,
        is_glob: false,
        impl_for: None,
        trait_impl: false,
        source_hint: None,
    }
}

fn module(name: &str, members: Vec<u64>) -> Item {
    let mut it = item(Some(name), ItemKind::Module);
    it.members = members;
    it
}

fn path(segs: &[&str], kind: ItemKind) -> PathEntry {
    PathEntry {
        segments: segs.iter().map(|s| s.to_string()).collect(),
        origin: 0,
        kind,
    }
}

fn key_of(segs: &[&str]) -> Vec<String> {
    segs.iter().map(|s| s.to_string()).collect()
}

fn bucket_ids<'a>(buckets: &'a ModuleBuckets, segs: &[&str]) -> Option<&'a Vec<u64>> {
    let want = key_of(segs);
    for b in buckets.buckets.iter() {
        if b.key == want {
            return Some(&b.item_ids);
        }
    }
    None
}

/// A project `demo` with modules `demo::a` and `demo::a::b`, where `b` holds
/// one function and `a` holds nothing of its own.
fn demo_store() -> ItemStore {
    ItemStore {
        root: 0,
        items: vec![
            (0, module("demo", vec![1])),
            (1, module("a", vec![2])),
            (2, module("b", vec![3])),
            (3, item(Some("f"), ItemKind::Function)),
        ],
        paths: vec![
            (0, path(&["demo"], ItemKind::Module)),
            (1, path(&["demo", "a"], ItemKind::Module)),
            (2, path(&["demo", "a", "b"], ItemKind::Module)),
            (3, path(&["demo", "a", "b", "f"], ItemKind::Function)),
        ],
        external_crates: Vec::new(),
        crate_version: None,
    }
}

#[test]
fn test_demo_bucket_keys_and_ancestors() {
    let store = demo_store();
    let buckets = assign_modules(&store, false);
    assert!(bucket_ids(&buckets, &["demo"]).is_some());
    assert!(bucket_ids(&buckets, &["demo", "a"]).is_some());
    assert!(bucket_ids(&buckets, &["demo", "a", "b"]).is_some());
    // the function lands in its owning module's bucket
    assert_eq!(bucket_ids(&buckets, &["demo", "a", "b"]).unwrap(), &vec![3u64]);
    // module items land in their parents' buckets
    assert_eq!(bucket_ids(&buckets, &["demo"]).unwrap(), &vec![1u64]);
    assert_eq!(bucket_ids(&buckets, &["demo", "a"]).unwrap(), &vec![2u64]);
}

#[test]
fn test_demo_hierarchy() {
    let store = demo_store();
    let buckets = assign_modules(&store, false);
    let h = build_module_hierarchy(&buckets);
    let demo_children: Vec<Vec<String>> = h
        .entries
        .iter()
        .find(|e| e.0 == key_of(&["demo"]))
        .unwrap()
        .1
        .clone();
    assert_eq!(demo_children, vec![key_of(&["demo", "a"])]);
    let a_children: Vec<Vec<String>> = h
        .entries
        .iter()
        .find(|e| e.0 == key_of(&["demo", "a"]))
        .unwrap()
        .1
        .clone();
    assert_eq!(a_children, vec![key_of(&["demo", "a", "b"])]);
}

#[test]
fn test_reassignment_is_identical() {
    let store = demo_store();
    let b1 = assign_modules(&store, false);
    let b2 = assign_modules(&store, false);
    assert_eq!(b1.buckets.len(), b2.buckets.len());
    for (x, y) in b1.buckets.iter().zip(b2.buckets.iter()) {
        assert_eq!(x.key, y.key);
        assert_eq!(x.item_ids, y.item_ids);
    }
}

/// A single re-export `pub use other::X;` in module `m`.
fn reexport_store() -> ItemStore {
    let mut use_item = item(None, ItemKind::Reexport);
    use_item.target = Some(4);
    ItemStore {
        root: 0,
        items: vec![
            (0, module("demo", vec![1, 2])),
            (1, module("m", vec![3])),
            (2, module("other", vec![4])),
            (3, use_item),
            (4, item(Some("X"), ItemKind::Struct)),
        ],
        paths: vec![
            (0, path(&["demo"], ItemKind::Module)),
            (1, path(&["demo", "m"], ItemKind::Module)),
            (2, path(&["demo", "other"], ItemKind::Module)),
            (4, path(&["demo", "other", "X"], ItemKind::Struct)),
        ],
        external_crates: Vec::new(),
        crate_version: None,
    }
}

#[test]
fn test_simple_reexport_listed_not_duplicated() {
    let store = reexport_store();
    let buckets = assign_modules(&store, false);
    // the re-export entry itself appears in m's bucket
    assert_eq!(bucket_ids(&buckets, &["demo", "m"]).unwrap(), &vec![3u64]);
    // X itself is not copied into m's bucket
    assert!(!bucket_ids(&buckets, &["demo", "m"]).unwrap().contains(&4));
    // X still lives in other's bucket
    assert!(bucket_ids(&buckets, &["demo", "other"]).unwrap().contains(&4));
}

#[test]
fn test_simple_reexport_link_points_at_origin() {
    let store = reexport_store();
    let ctx = LinkContext {
        base_path: String::new(),
        workspace_crates: Vec::new(),
        internal_segments: default_internal_segments(),
    };
    let p = vec!["demo".to_string(), "m".to_string(), "X".to_string()];
    let link = generate_type_link(&store, &ctx, &p, 4);
    assert_eq!(link.unwrap(), "/demo/other/struct.X");
}

/// A wildcard re-export `pub use other::*;` in module `m`, where `other`
/// holds a public struct `S`.
fn glob_store() -> ItemStore {
    let mut use_item = item(None, ItemKind::Reexport);
    use_item.target = Some(2);
    use_item.is_glob = true;
    ItemStore {
        root: 0,
        items: vec![
            (0, module("demo", vec![1, 2])),
            (1, module("m", vec![3])),
            (2, module("other", vec![4])),
            (3, use_item),
            (4, item(Some("S"), ItemKind::Struct)),
        ],
        paths: vec![
            (0, path(&["demo"], ItemKind::Module)),
            (1, path(&["demo", "m"], ItemKind::Module)),
            (2, path(&["demo", "other"], ItemKind::Module)),
            (4, path(&["demo", "other", "S"], ItemKind::Struct)),
        ],
        external_crates: Vec::new(),
        crate_version: None,
    }
}

#[test]
fn test_wildcard_reexport_copies_items() {
    let store = glob_store();
    let buckets = assign_modules(&store, false);
    // m gains a copy of S, plus the use entry itself
    let m_ids = bucket_ids(&buckets, &["demo", "m"]).unwrap();
    assert!(m_ids.contains(&4), "wildcard should copy S into m");
    assert!(m_ids.contains(&3), "the re-export entry itself is listed");
    // other's own bucket is untouched
    assert_eq!(bucket_ids(&buckets, &["demo", "other"]).unwrap(), &vec![4u64]);
}

#[test]
fn test_reexport_cycle_resolves_to_unresolved() {
    // a cycle of re-exports must terminate and report failure
    let mut a = item(None, ItemKind::Reexport);
    a.target = Some(2);
    let mut b = item(None, ItemKind::Reexport);
    b.target = Some(1);
    let store = ItemStore {
        root: 0,
        items: vec![(0, module("demo", vec![1, 2])), (1, a), (2, b)],
        paths: vec![(0, path(&["demo"], ItemKind::Module))],
        external_crates: Vec::new(),
        crate_version: None,
    };
    assert!(resolve_reexport_chain(&store, 1).is_none());
}

#[test]
fn test_long_chain_within_bound_resolves() {
    // a chain of nine re-exports ending at a struct resolves
    let mut items = vec![(0u64, module("demo", (1..=10).collect()))];
    for i in 1..10u64 {
        let mut u = item(None, ItemKind::Reexport);
        u.target = Some(i + 1);
        items.push((i, u));
    }
    items.push((10, item(Some("End"), ItemKind::Struct)));
    let store = ItemStore {
        root: 0,
        items,
        paths: vec![(0, path(&["demo"], ItemKind::Module))],
        external_crates: Vec::new(),
        crate_version: None,
    };
    let r = resolve_reexport_chain(&store, 1).unwrap();
    assert_eq!(r.0, 10);
}

#[test]
fn test_link_std_type() {
    let store = demo_store();
    let ctx = LinkContext {
        base_path: String::new(),
        workspace_crates: Vec::new(),
        internal_segments: default_internal_segments(),
    };
    let p = vec!["std".to_string(), "sync".to_string(), "Arc".to_string()];
    // id 99 is unknown to the store, so this is an external reference
    let link = generate_type_link(&store, &ctx, &p, 99);
    assert_eq!(
        link.unwrap(),
        "https://doc.rust-lang.org/std/sync/struct.Arc.html"
    );
}

#[test]
fn test_link_core_fmt_result_redirect() {
    let store = demo_store();
    let ctx = LinkContext {
        base_path: String::new(),
        workspace_crates: Vec::new(),
        internal_segments: default_internal_segments(),
    };
    let p = vec!["core".to_string(), "fmt".to_string(), "Result".to_string()];
    let link = generate_type_link(&store, &ctx, &p, 99);
    assert_eq!(
        link.unwrap(),
        "https://doc.rust-lang.org/std/result/enum.Result.html"
    );
}

#[test]
fn test_link_docsrs_external() {
    let store = demo_store();
    let ctx = LinkContext {
        base_path: String::new(),
        workspace_crates: Vec::new(),
        internal_segments: default_internal_segments(),
    };
    let p = vec!["serde".to_string(), "de".to_string(), "Error".to_string()];
    let link = generate_type_link(&store, &ctx, &p, 99);
    assert_eq!(
        link.unwrap(),
        "https://docs.rs/serde/latest/serde/de/struct.Error.html"
    );
}

#[test]
fn test_link_filters_internal_segments() {
    let store = demo_store();
    let ctx = LinkContext {
        base_path: String::new(),
        workspace_crates: Vec::new(),
        internal_segments: default_internal_segments(),
    };
    let p = vec![
        "tokio".to_string(),
        "inner".to_string(),
        "mpsc".to_string(),
        "Sender".to_string(),
    ];
    let link = generate_type_link(&store, &ctx, &p, 99);
    assert_eq!(
        link.unwrap(),
        "https://docs.rs/tokio/latest/tokio/mpsc/struct.Sender.html"
    );
}

#[test]
fn test_link_determinism() {
    let store = reexport_store();
    let ctx = LinkContext {
        base_path: String::from("/docs/rust"),
        workspace_crates: vec!["demo".to_string()],
        internal_segments: default_internal_segments(),
    };
    let p = vec!["demo".to_string(), "other".to_string(), "X".to_string()];
    let l1 = generate_type_link(&store, &ctx, &p, 4);
    let l2 = generate_type_link(&store, &ctx, &p, 4);
    assert_eq!(l1, l2);
}

#[test]
fn test_sibling_normalization_both_ways() {
    // a sibling registered with a hyphen matches a reference reported with
    // an underscore, and the other way round
    let store = ItemStore {
        root: 0,
        items: vec![(0, module("demo", vec![]))],
        paths: vec![
            (0, path(&["demo"], ItemKind::Module)),
            (
                7,
                PathEntry {
                    segments: vec!["foo_bar".to_string(), "Thing".to_string()],
                    origin: 1,
                    kind: ItemKind::Struct,
                },
            ),
        ],
        external_crates: vec![(1, "foo_bar".to_string())],
        crate_version: None,
    };
    let ctx = LinkContext {
        base_path: String::from("/docs"),
        workspace_crates: vec!["foo-bar".to_string()],
        internal_segments: default_internal_segments(),
    };
    let p = vec!["foo_bar".to_string(), "Thing".to_string()];
    let link = generate_type_link(&store, &ctx, &p, 7);
    assert_eq!(link.unwrap(), "/docs/foo_bar/struct.Thing");

    // and the reverse registration
    let store2 = ItemStore {
        external_crates: vec![(1, "foo-bar".to_string())],
        ..store
    };
    let ctx2 = LinkContext {
        base_path: String::from("/docs"),
        workspace_crates: vec!["foo_bar".to_string()],
        internal_segments: default_internal_segments(),
    };
    let link2 = generate_type_link(&store2, &ctx2, &p, 7);
    assert_eq!(link2.unwrap(), "/docs/foo-bar/struct.Thing");
}

#[test]
fn test_short_type_name() {
    assert_eq!(get_short_type_name("std::sync::Arc"), "Arc");
    assert_eq!(get_short_type_name("Plain"), "Plain");
}

#[test]
fn test_synthetic_lifetimes() {
    assert!(is_synthetic_lifetime("'_"));
    assert!(is_synthetic_lifetime("'_12"));
    assert!(is_synthetic_lifetime("'life0"));
    assert!(is_synthetic_lifetime("'async_trait"));
    assert!(!is_synthetic_lifetime("'a"));
}

#[test]
fn test_compiler_internal_traits() {
    assert!(is_compiler_internal_trait("StructuralPartialEq"));
    assert!(is_compiler_internal_trait("Unpin"));
    assert!(!is_compiler_internal_trait("Display"));
}

#[test]
fn test_reexported_modules_single() {
    // `pub use demo::sub;` inside module m lists sub under m
    let mut use_item = item(None, ItemKind::Reexport);
    use_item.target = Some(4);
    let store = ItemStore {
        root: 0,
        items: vec![
            (0, module("demo", vec![1, 4])),
            (1, module("m", vec![3])),
            (3, use_item),
            (4, module("sub", vec![])),
        ],
        paths: vec![
            (0, path(&["demo"], ItemKind::Module)),
            (1, path(&["demo", "m"], ItemKind::Module)),
            (4, path(&["demo", "sub"], ItemKind::Module)),
        ],
        external_crates: Vec::new(),
        crate_version: None,
    };
    let rex = build_reexported_modules(&store, false);
    let m_entry = rex
        .buckets
        .iter()
        .find(|b| b.key == key_of(&["demo", "m"]))
        .expect("m has a listing");
    assert_eq!(m_entry.entries.len(), 1);
    assert_eq!(m_entry.entries[0].0, "sub");
    assert_eq!(m_entry.entries[0].1, key_of(&["demo", "sub"]));
}

#[test]
fn test_reexported_modules_wildcard() {
    // `pub use inner::*;` lists the public submodules of inner
    let mut use_item = item(None, ItemKind::Reexport);
    use_item.target = Some(2);
    use_item.is_glob = true;
    let mut hidden = module("secret", vec![]);
    hidden.visibility = Visibility::Restricted;
    let store = ItemStore {
        root: 0,
        items: vec![
            (0, module("demo", vec![1, 2])),
            (1, module("m", vec![3])),
            (2, module("inner", vec![4, 5])),
            (3, use_item),
            (4, module("alpha", vec![])),
            (5, hidden),
        ],
        paths: vec![
            (0, path(&["demo"], ItemKind::Module)),
            (1, path(&["demo", "m"], ItemKind::Module)),
            (2, path(&["demo", "inner"], ItemKind::Module)),
            (4, path(&["demo", "inner", "alpha"], ItemKind::Module)),
            (5, path(&["demo", "inner", "secret"], ItemKind::Module)),
        ],
        external_crates: Vec::new(),
        crate_version: None,
    };
    let rex = build_reexported_modules(&store, false);
    let m_entry = rex
        .buckets
        .iter()
        .find(|b| b.key == key_of(&["demo", "m"]))
        .expect("m has a listing");
    assert_eq!(m_entry.entries.len(), 1, "only the public submodule is listed");
    assert_eq!(m_entry.entries[0].0, "alpha");
}

#[test]
fn test_wildcard_self_reference_is_skipped() {
    // `pub use self::*;` must not copy the module into itself
    let mut use_item = item(None, ItemKind::Reexport);
    use_item.target = Some(1);
    use_item.is_glob = true;
    let store = ItemStore {
        root: 0,
        items: vec![
            (0, module("demo", vec![1])),
            (1, module("m", vec![3, 4])),
            (3, use_item),
            (4, item(Some("S"), ItemKind::Struct)),
        ],
        paths: vec![
            (0, path(&["demo"], ItemKind::Module)),
            (1, path(&["demo", "m"], ItemKind::Module)),
            (4, path(&["demo", "m", "S"], ItemKind::Struct)),
        ],
        external_crates: Vec::new(),
        crate_version: None,
    };
    let buckets = assign_modules(&store, false);
    // S is owned once, and the self-referential wildcard adds nothing new
    let m_ids = bucket_ids(&buckets, &["demo", "m"]).unwrap();
    assert_eq!(m_ids, &vec![3u64, 4u64]);
}

#[test]
fn test_wildcard_ancestor_guard() {
    // a wildcard whose source is an ancestor of the destination is skipped
    let mut use_item = item(None, ItemKind::Reexport);
    use_item.target = Some(0);
    use_item.is_glob = true;
    let store = ItemStore {
        root: 99,
        items: vec![
            (99, module("demo", vec![0])),
            (0, module("demo_root", vec![1, 5])),
            (1, module("m", vec![3])),
            (3, use_item),
            (5, item(Some("Top"), ItemKind::Struct)),
        ],
        paths: vec![
            (0, path(&["demo"], ItemKind::Module)),
            (1, path(&["demo", "m"], ItemKind::Module)),
            (5, path(&["demo", "Top"], ItemKind::Struct)),
        ],
        external_crates: Vec::new(),
        crate_version: None,
    };
    let buckets = assign_modules(&store, false);
    let m_ids = bucket_ids(&buckets, &["demo", "m"]).unwrap();
    assert!(!m_ids.contains(&5), "the ancestor's items must not be copied");
    assert!(m_ids.contains(&3));
}

#[test]
fn test_include_private_widens_buckets() {
    let mut secret = item(Some("hidden"), ItemKind::Function);
    secret.visibility = Visibility::Restricted;
    let store = ItemStore {
        root: 0,
        items: vec![(0, module("demo", vec![1])), (1, secret)],
        paths: vec![
            (0, path(&["demo"], ItemKind::Module)),
            (1, path(&["demo", "hidden"], ItemKind::Function)),
        ],
        external_crates: Vec::new(),
        crate_version: None,
    };
    let public_only = assign_modules(&store, false);
    let with_private = assign_modules(&store, true);
    assert!(bucket_ids(&public_only, &["demo"]).map_or(true, |ids| !ids.contains(&1)));
    assert!(bucket_ids(&with_private, &["demo"]).unwrap().contains(&1));
}

#[test]
fn test_items_sorted_by_name() {
    let store = ItemStore {
        root: 0,
        items: vec![
            (0, module("demo", vec![])),
            (7, item(Some("zeta"), ItemKind::Function)),
            (3, item(Some("alpha"), ItemKind::Function)),
            (5, item(Some("midway"), ItemKind::Struct)),
        ],
        paths: vec![
            (0, path(&["demo"], ItemKind::Module)),
            (7, path(&["demo", "zeta"], ItemKind::Function)),
            (3, path(&["demo", "alpha"], ItemKind::Function)),
            (5, path(&["demo", "midway"], ItemKind::Struct)),
        ],
        external_crates: Vec::new(),
        crate_version: None,
    };
    let buckets = assign_modules(&store, false);
    assert_eq!(bucket_ids(&buckets, &["demo"]).unwrap(), &vec![3u64, 5, 7]);
}

#[test]
fn test_single_segment_fallback_table() {
    let store = demo_store();
    let ctx = LinkContext {
        base_path: String::new(),
        workspace_crates: Vec::new(),
        internal_segments: default_internal_segments(),
    };
    let p = vec!["String".to_string()];
    let link = generate_type_link(&store, &ctx, &p, 1234);
    assert_eq!(
        link.unwrap(),
        "https://doc.rust-lang.org/std/string/struct.String.html"
    );
    let q = vec!["NoSuchThing".to_string()];
    assert!(generate_type_link(&store, &ctx, &q, 1234).is_none());
}
