//! Tests for the navigation-tree builder, its rendering, and the
//! multi-project merge.

use cargo_doc_docusaurus::assign::assign_modules;
use cargo_doc_docusaurus::merge::{generate_root_sidebar, merge_rust_sidebars};
use cargo_doc_docusaurus::options::SidebarSet;
use cargo_doc_docusaurus::sidebar::{
    build_all_sidebars, doc_id_of, format_sidebar_item, generate_all_sidebars,
    generate_sidebar_for_module, sidebar_prefix_of, SidebarItem,
};
use cargo_doc_docusaurus::store::{Item, ItemKind, ItemStore, PathEntry, Visibility};

fn item(name: Option<&str>, kind: ItemKind) -> Item {
    Item {
        name: name.map(|s| s.to_string()),
        visibility: Visibility::Public,
        kind,
        docs: None,
        members: Vec::new(),
        target: None,
        is_glob: false,
        impl_for: None,
        trait_impl: false,
        source_hint: None,
    }
}

fn module(name: &str, members: Vec<u64>) -> Item {
    let mut it = item(Some(name), ItemKind::Module);
    it.members = members;
    it
}

fn path(segs: &[&str], kind: ItemKind) -> PathEntry {
    PathEntry {
        segments: segs.iter().map(|s| s.to_string()).collect(),
        origin: 0,
        kind,
    }
}

fn demo_store() -> ItemStore {
    ItemStore {
        root: 0,
        items: vec![
            (0, module("demo", vec![1])),
            (1, module("a", vec![2])),
            (2, module("b", vec![3])),
            (3, item(Some("f"), ItemKind::Function)),
        ],
        paths: vec![
            (0, path(&["demo"], ItemKind::Module)),
            (1, path(&["demo", "a"], ItemKind::Module)),
            (2, path(&["demo", "a", "b"], ItemKind::Module)),
            (3, path(&["demo", "a", "b", "f"], ItemKind::Function)),
        ],
        external_crates: Vec::new(),
        crate_version: None,
    }
}

fn find_category<'a>(items: &'a [SidebarItem], want: &str) -> Option<&'a Vec<SidebarItem>> {
    for it in items {
        if let SidebarItem::Category { label, items, .. } = it {
            if label == want {
                return Some(items);
            }
            if let Some(found) = find_category(items, want) {
                return Some(found);
            }
        }
    }
    None
}

#[test]
fn test_sidebar_lists_function_under_functions_category() {
    // the sidebar for demo::a::b's own pages lists f under "Functions"
    let store = demo_store();
    let buckets = assign_modules(&store, false);
    let key = vec!["demo".to_string(), "a".to_string(), "b".to_string()];
    let sidebar = generate_sidebar_for_module(
        &store,
        &buckets,
        "demo",
        &key,
        "",
        false,
        &None,
        true,
        &Vec::new(),
        &None,
    );
    let functions = find_category(&sidebar, "Functions").expect("Functions category");
    assert_eq!(functions.len(), 1);
    match &functions[0] {
        SidebarItem::Doc { id, label, .. } => {
            assert_eq!(id, "demo/a/b/fn.f");
            assert_eq!(label.as_deref(), Some("f"));
        }
        _ => panic!("expected a doc entry"),
    }
}

#[test]
fn test_sidebar_set_covers_every_bucket() {
    // every bucket key has a matching navigation entry
    let store = demo_store();
    let buckets = assign_modules(&store, false);
    let set = build_all_sidebars(&store, &buckets, "demo", "", &None, &Vec::new(), &None);
    let keys: Vec<&str> = set.entries.iter().map(|e| e.0.as_str()).collect();
    assert!(keys.contains(&"demo"));
    assert!(keys.contains(&"demo/a"));
    assert!(keys.contains(&"demo/a/b"));
}

#[test]
fn test_rendered_sidebars_mention_every_module() {
    let store = demo_store();
    let buckets = assign_modules(&store, false);
    let ts = generate_all_sidebars(&store, &buckets, "demo", "", &None, false, &Vec::new(), &None);
    assert!(ts.contains("export const rustSidebars"));
    assert!(ts.contains("'demo': ["));
    assert!(ts.contains("'demo_a': ["));
    assert!(ts.contains("'demo_a_b': ["));
    assert!(ts.contains("export const rustApiDocumentation"));
}

#[test]
fn test_format_sidebar_item_doc_plain() {
    let doc = SidebarItem::Doc {
        id: "demo/index.md".to_string(),
        label: None,
        custom_props: None,
    };
    assert_eq!(format_sidebar_item(&doc, 2), "    'demo/index',\n");
}

#[test]
fn test_format_sidebar_item_doc_with_class() {
    let doc = SidebarItem::Doc {
        id: "demo/fn.add".to_string(),
        label: Some("add".to_string()),
        custom_props: Some("rust-fn".to_string()),
    };
    assert_eq!(
        format_sidebar_item(&doc, 0),
        "{ type: 'doc', id: 'demo/fn.add', label: 'add', className: 'rust-fn' },\n"
    );
}

#[test]
fn test_format_sidebar_item_category() {
    let cat = SidebarItem::Category {
        label: "Functions".to_string(),
        items: vec![SidebarItem::Doc {
            id: "demo/fn.add".to_string(),
            label: None,
            custom_props: None,
        }],
        collapsed: false,
        link: None,
    };
    let out = format_sidebar_item(&cat, 1);
    assert!(out.starts_with("  {\n    type: 'category',\n"));
    assert!(out.contains("label: 'Functions'"));
    assert!(out.contains("collapsible: false"));
    assert!(out.contains("'demo/fn.add',\n"));
}

fn doc(id: &str, label: Option<&str>, props: Option<&str>) -> SidebarItem {
    SidebarItem::Doc {
        id: id.to_string(),
        label: label.map(|s| s.to_string()),
        custom_props: props.map(|s| s.to_string()),
    }
}

#[test]
fn test_merge_last_writer_wins_and_sorted() {
    let existing = SidebarSet {
        entries: vec![
            ("beta".to_string(), vec![doc("old/beta", None, None)]),
            ("alpha".to_string(), vec![doc("old/alpha", None, None)]),
        ],
    };
    let fresh = SidebarSet {
        entries: vec![("beta".to_string(), vec![doc("new/beta", None, None)])],
    };
    let merged = merge_rust_sidebars(existing, fresh);
    let keys: Vec<&str> = merged.entries.iter().map(|e| e.0.as_str()).collect();
    assert_eq!(keys, vec!["alpha", "beta"]);
    match &merged.entries[1].1[0] {
        SidebarItem::Doc { id, .. } => assert_eq!(id, "new/beta"),
        _ => panic!("expected a doc entry"),
    }
}

#[test]
fn test_root_sidebar_recomputed_from_union() {
    // the root list reflects the merged membership, deduplicated and sorted
    let set = SidebarSet {
        entries: vec![
            (
                "crate_b".to_string(),
                vec![doc(
                    "crate_b/index",
                    Some("crate_b"),
                    Some("{ rustCrateTitle: true, crateName: 'crate_b', version: '' }"),
                )],
            ),
            (
                "crate_a".to_string(),
                vec![doc(
                    "crate_a/index",
                    Some("crate_a"),
                    Some("{ rustCrateTitle: true, crateName: 'crate_a', version: '' }"),
                )],
            ),
            (
                "crate_a_modules".to_string(),
                vec![doc(
                    "crate_a/index",
                    Some("crate_a"),
                    Some("{ rustCrateTitle: true, crateName: 'crate_a', version: '' }"),
                )],
            ),
        ],
    };
    let root = generate_root_sidebar(&set);
    let expected = "  { type: 'doc', id: 'crate_a/index', label: 'crate_a', className: 'rust-mod' },\n  { type: 'doc', id: 'crate_b/index', label: 'crate_b', className: 'rust-mod' },\n";
    assert_eq!(root, expected);
}

#[test]
fn test_sidebar_prefix_stripping() {
    assert_eq!(sidebar_prefix_of("/docs"), "");
    assert_eq!(sidebar_prefix_of("docs"), "");
    assert_eq!(sidebar_prefix_of("/docs/rust"), "rust");
    assert_eq!(sidebar_prefix_of("docs/api"), "api");
    assert_eq!(sidebar_prefix_of("/site"), "/site");
}

#[test]
fn test_doc_id_strips_markdown_extension() {
    assert_eq!(doc_id_of("a/index.md"), "a/index");
    assert_eq!(doc_id_of("plain"), "plain");
    assert_eq!(doc_id_of("x.md.md"), "x");
}
