//! The navigation-tree builder: one sidebar per navigation context, plus the
//! rendering of the whole set as TypeScript.

use crate::assign::{ModuleBucket, ModuleBuckets};
use crate::store::{Item, ItemKind, ItemStore, spec_assoc, spec_item_prefix};
use crate::strutil::{
    clone_segments, join_strings, lex_lt, matches_at, path_eq, seq_views, spec_join, str_eq,
    str_lt, str_matches_at,
};
use vstd::prelude::*;

verus! {

/// One sidebar node.
pub enum SidebarItem {
    /// A reference to a document, with an optional label and styling hint.
    Doc { id: String, label: Option<String>, custom_props: Option<String> },
    /// An external link.
    Link { href: String, label: String, custom_props: Option<String> },
    /// A category holding child nodes; optionally clickable.
    Category { label: String, items: Vec<SidebarItem>, collapsed: bool, link: Option<String> },
}

/// The abstract value of a sidebar node: every string replaced by its view.
pub enum NodeView {
    Doc { id: Seq<char>, label: Option<Seq<char>>, custom_props: Option<Seq<char>> },
    Link { href: Seq<char>, label: Seq<char>, custom_props: Option<Seq<char>> },
    Category { label: Seq<char>, items: Seq<NodeView>, collapsed: bool, link: Option<Seq<char>> },
}

/// The view of an optional string.
pub open spec fn opt_view(o: Option<String>) -> Option<Seq<char>> {
    match o {
        Some(s) => Some(s@),
        None => None,
    }
}

impl SidebarItem {
    /// The abstract value of this node.
    pub open spec fn node_view(self) -> NodeView
        decreases self,
    {
        match self {
            SidebarItem::Doc { id, label, custom_props } => NodeView::Doc {
                id: id@,
                label: opt_view(label),
                custom_props: opt_view(custom_props),
            },
            SidebarItem::Link { href, label, custom_props } => NodeView::Link {
                href: href@,
                label: label@,
                custom_props: opt_view(custom_props),
            },
            SidebarItem::Category { label, items, collapsed, link } => NodeView::Category {
                label: label@,
                items: nodes_view(items@),
                collapsed: collapsed,
                link: opt_view(link),
            },
        }
    }
}

/// The views of a node list.
pub open spec fn nodes_view(items: Seq<SidebarItem>) -> Seq<NodeView>
    decreases items,
{
    if items.len() == 0 {
        Seq::empty()
    } else {
        seq![items[0].node_view()] + nodes_view(items.drop_first())
    }
}


/// A document id as it appears in the sidebar: the node id with every
/// markdown extension mark removed.
pub open spec fn spec_trim_end_md(s: Seq<char>) -> Seq<char>
    decreases s.len(),
{
    if s.len() >= 3 && ".md"@.is_suffix_of(s) {
        spec_trim_end_md(s.take(s.len() - 3))
    } else {
        s
    }
}

/// Left-to-right removal of every `.md` occurrence.
pub open spec fn spec_remove_md(s: Seq<char>) -> Seq<char>
    decreases s.len(),
{
    if s.len() == 0 {
        s
    } else if s.len() >= 3 && matches_at(s, ".md"@, 0) {
        spec_remove_md(s.skip(3))
    } else {
        seq![s[0]] + spec_remove_md(s.drop_first())
    }
}

/// The document id for a node id.
pub open spec fn spec_doc_id(s: Seq<char>) -> Seq<char> {
    spec_remove_md(spec_trim_end_md(s))
}

/// Strip markdown extension marks from a node id.
pub fn doc_id_of(s: &str) -> (r: String)
    ensures
        r@ == spec_doc_id(s@),
{
    proof {
        reveal_strlit(".md");
        assert(".md"@.len() == 3);
    }
    let mut hi = s.unicode_len();
    proof {
        assert(s@.take(s@.len() as int) =~= s@);
    }
    loop
        invariant
            hi <= s@.len(),
            ".md"@.len() == 3,
            spec_trim_end_md(s@) == spec_trim_end_md(s@.take(hi as int)),
        ensures
            hi <= s@.len(),
            spec_trim_end_md(s@) == s@.take(hi as int),
        decreases hi,
    {
        if hi >= 3 {
            if str_matches_at(s, ".md", hi - 3) {
                proof {
                    let t = s@.take(hi as int);
                    assert(t.len() == hi);
                    assert(t.subrange(hi - 3, hi as int) =~= s@.subrange(hi - 3, hi as int));
                    assert(".md"@.is_suffix_of(t));
                    assert(t.take(t.len() - 3) =~= s@.take(hi - 3));
                }
                hi = hi - 3;
                continue;
            }
        }
        proof {
            let t = s@.take(hi as int);
            if hi >= 3 {
                if ".md"@.is_suffix_of(t) {
                    assert(t.subrange(hi - 3, hi as int) =~= s@.subrange(hi - 3, hi as int));
                    assert(matches_at(s@, ".md"@, hi - 3));
                }
            }
            assert(spec_trim_end_md(t) == t);
        }
        break;
    }
    let ghost trimmed = s@.take(hi as int);
    // now remove every remaining occurrence, scanning left to right
    let mut out = String::new();
    let mut i: usize = 0;
    proof {
        assert(trimmed.skip(0) =~= trimmed);
    }
    while i < hi
        invariant
            i <= hi,
            hi <= s@.len(),
            ".md"@.len() == 3,
            trimmed == s@.take(hi as int),
            spec_remove_md(trimmed) =~= out@ + spec_remove_md(trimmed.skip(i as int)),
        decreases hi - i,
    {
        let ghost rest = trimmed.skip(i as int);
        proof {
            assert(rest[0] == s@[i as int]);
            assert(rest.drop_first() =~= trimmed.skip(i + 1));
        }
        let is_md = if hi >= 3 && i <= hi - 3 {
            let m = str_matches_at(s, ".md", i);
            proof {
                if m {
                    assert(rest.subrange(0, 3) =~= s@.subrange(i as int, i + 3));
                    assert(matches_at(rest, ".md"@, 0));
                } else {
                    if matches_at(rest, ".md"@, 0) {
                        assert(rest.subrange(0, 3) =~= s@.subrange(i as int, i + 3));
                    }
                }
            }
            m
        } else {
            proof {
                if matches_at(rest, ".md"@, 0) {
                    assert(rest.len() >= 3);
                }
            }
            false
        };
        if is_md {
            proof {
                assert(rest.skip(3) =~= trimmed.skip(i + 3));
                assert(spec_remove_md(rest) =~= spec_remove_md(trimmed.skip(i + 3)));
            }
            i = i + 3;
        } else {
            let c = s.get_char(i);
            proof {
                assert(spec_remove_md(rest) =~= seq![rest[0]] + spec_remove_md(
                    trimmed.skip(i + 1),
                ));
            }
            out.push(c);
            i = i + 1;
        }
    }
    proof {
        assert(trimmed.skip(hi as int).len() == 0);
        assert(spec_remove_md(trimmed.skip(hi as int)) =~= Seq::<char>::empty());
        assert(out@ =~= spec_remove_md(trimmed));
    }
    out
}


/// The indentation prefix: two spaces per level.
pub open spec fn spec_indent(n: nat) -> Seq<char>
    decreases n,
{
    if n == 0 {
        Seq::empty()
    } else {
        "  "@ + spec_indent((n - 1) as nat)
    }
}

proof fn lemma_indent_snoc(n: nat)
    ensures
        spec_indent(n + 1) == spec_indent(n) + "  "@,
    decreases n,
{
    if n == 0 {
        assert(spec_indent(1) =~= Seq::<char>::empty() + "  "@ + Seq::<char>::empty());
        assert(spec_indent(0) + "  "@ =~= spec_indent(1));
    } else {
        lemma_indent_snoc((n - 1) as nat);
        assert(spec_indent(n + 1) =~= "  "@ + spec_indent(n));
        assert("  "@ + (spec_indent((n - 1) as nat) + "  "@) =~= ("  "@ + spec_indent(
            (n - 1) as nat,
        )) + "  "@);
    }
}

/// The rendered form of a styling hint: JSON goes to `customProps`, a plain
/// class name to `className`.
pub open spec fn spec_props_part(props: Option<Seq<char>>) -> Seq<char> {
    match props {
        Some(p) => if p.len() > 0 && p[0] == '{' {
            ", customProps: "@ + p
        } else {
            ", className: '"@ + p + "'"@
        },
        None => Seq::empty(),
    }
}

/// A boolean literal.
pub open spec fn spec_bool_text(b: bool) -> Seq<char> {
    if b {
        "true"@
    } else {
        "false"@
    }
}

/// One rendered sidebar node, with the given indentation prefix.
pub open spec fn spec_render_item(nv: NodeView, ind: Seq<char>) -> Seq<char>
    decreases nv,
{
    match nv {
        NodeView::Doc { id, label, custom_props } => {
            let did = spec_doc_id(id);
            if label is Some || custom_props is Some {
                ind + "{ type: 'doc', id: '"@ + did + "'"@ + (match label {
                    Some(l) => ", label: '"@ + l + "'"@,
                    None => Seq::empty(),
                }) + spec_props_part(custom_props) + " },
"@
            } else {
                ind + "'"@ + did + "',
"@
            }
        },
        NodeView::Link { href, label, custom_props } => ind + "{ type: 'link', href: '"@ + href
            + "', label: '"@ + label + "'"@ + spec_props_part(custom_props) + " },
"@,
        NodeView::Category { label, items, collapsed, link } => {
            ind + "{
"@ + ind + "  type: 'category',
"@ + ind + "  label: '"@ + label + "',
"@
                + (match link {
                Some(lp) => ind + "  link: {
"@ + ind + "    type: 'doc',
"@ + ind + "    id: '"@
                    + spec_doc_id(lp) + "',
"@ + ind + "  },
"@,
                None => Seq::empty(),
            }) + (if ind.len() > 0 {
                ind + "  collapsible: false,
"@
            } else {
                ind + "  collapsed: "@ + spec_bool_text(collapsed) + ",
"@
            }) + ind + "  items: [
"@ + spec_render_items(items, ind + "    "@) + ind + "  ],
"@
                + ind + "},
"@
        },
    }
}

/// A rendered node list: each node in order.
pub open spec fn spec_render_items(items: Seq<NodeView>, ind: Seq<char>) -> Seq<char>
    decreases items,
{
    if items.len() == 0 {
        Seq::empty()
    } else {
        spec_render_item(items[0], ind) + spec_render_items(items.drop_first(), ind)
    }
}

proof fn lemma_render_items_push(items: Seq<NodeView>, x: NodeView, ind: Seq<char>)
    ensures
        spec_render_items(items.push(x), ind) == spec_render_items(items, ind) + spec_render_item(
            x,
            ind,
        ),
    decreases items,
{
    if items.len() == 0 {
        assert(items.push(x)[0] == x);
        assert(items.push(x).drop_first() =~= Seq::<NodeView>::empty());
        assert(spec_render_items(Seq::<NodeView>::empty(), ind) =~= Seq::<char>::empty());
        assert(spec_render_items(items.push(x), ind) =~= spec_render_item(x, ind)
            + spec_render_items(Seq::<NodeView>::empty(), ind));
        assert(spec_render_items(items.push(x), ind) =~= spec_render_item(x, ind));
        assert(spec_render_items(items, ind) + spec_render_item(x, ind) =~= spec_render_item(
            x,
            ind,
        ));
    } else {
        lemma_render_items_push(items.drop_first(), x, ind);
        assert(items.push(x)[0] == items[0]);
        assert(items.push(x).drop_first() =~= items.drop_first().push(x));
        assert(spec_render_items(items.push(x), ind) =~= spec_render_item(items[0], ind) + (
        spec_render_items(items.drop_first(), ind) + spec_render_item(x, ind)));
        assert(spec_render_item(items[0], ind) + (spec_render_items(items.drop_first(), ind)
            + spec_render_item(x, ind)) =~= (spec_render_item(items[0], ind) + spec_render_items(
            items.drop_first(),
            ind,
        )) + spec_render_item(x, ind));
    }
}

/// Render the styling hint into the output.
fn append_props(out: &mut String, props: &Option<String>)
    ensures
        final(out)@ == old(out)@ + spec_props_part(opt_view(*props)),
{
    match props {
        Some(p) => {
            let nonempty_brace = p.as_str().unicode_len() > 0 && p.as_str().get_char(0) == '{';
            if nonempty_brace {
                out.append(", customProps: ");
                out.append(p.as_str());
            } else {
                out.append(", className: '");
                out.append(p.as_str());
                out.append("'");
            }
        },
        None => {},
    }
}

/// Render one sidebar node with the given indentation prefix.
#[verifier::rlimit(100)]
fn render_item(item: &SidebarItem, ind: &str) -> (r: String)
    ensures
        r@ == spec_render_item(item.node_view(), ind@),
    decreases *item,
{
    let mut out = String::new();
    match item {
        SidebarItem::Doc { id, label, custom_props } => {
            let did = doc_id_of(id.as_str());
            let plain = match label {
                Some(_) => false,
                None => match custom_props {
                    Some(_) => false,
                    None => true,
                },
            };
            if plain {
                out.append(ind);
                out.append("'");
                out.append(did.as_str());
                out.append("',
");
            } else {
                out.append(ind);
                out.append("{ type: 'doc', id: '");
                out.append(did.as_str());
                out.append("'");
                match label {
                    Some(l) => {
                        out.append(", label: '");
                        out.append(l.as_str());
                        out.append("'");
                    },
                    None => {},
                }
                append_props(&mut out, custom_props);
                out.append(" },
");
            }
        },
        SidebarItem::Link { href, label, custom_props } => {
            out.append(ind);
            out.append("{ type: 'link', href: '");
            out.append(href.as_str());
            out.append("', label: '");
            out.append(label.as_str());
            out.append("'");
            append_props(&mut out, custom_props);
            out.append(" },
");
        },
        SidebarItem::Category { label, items, collapsed, link } => {
            out.append(ind);
            out.append("{
");
            out.append(ind);
            out.append("  type: 'category',
");
            out.append(ind);
            out.append("  label: '");
            out.append(label.as_str());
            out.append("',
");
            match link {
                Some(lp) => {
                    let did = doc_id_of(lp.as_str());
                    out.append(ind);
                    out.append("  link: {
");
                    out.append(ind);
                    out.append("    type: 'doc',
");
                    out.append(ind);
                    out.append("    id: '");
                    out.append(did.as_str());
                    out.append("',
");
                    out.append(ind);
                    out.append("  },
");
                },
                None => {},
            }
            if ind.unicode_len() > 0 {
                out.append(ind);
                out.append("  collapsible: false,
");
            } else {
                out.append(ind);
                out.append("  collapsed: ");
                if *collapsed {
                    out.append("true");
                } else {
                    out.append("false");
                }
                out.append(",
");
            }
            out.append(ind);
            out.append("  items: [
");
            let mut ind2 = String::from_str(ind);
            ind2.append("    ");
            let sub = render_items(items, ind2.as_str());
            out.append(sub.as_str());
            out.append(ind);
            out.append("  ],
");
            out.append(ind);
            out.append("},
");
        },
    }
    proof {
        assert(out@ =~= spec_render_item(item.node_view(), ind@));
    }
    out
}

/// Render a node list, each node in order.
fn render_items(items: &Vec<SidebarItem>, ind: &str) -> (r: String)
    ensures
        r@ == spec_render_items(nodes_view(items@), ind@),
    decreases items@,
{
    let mut out = String::new();
    let mut i: usize = 0;
    proof {
        assert(nodes_view(items@).take(0) =~= Seq::<NodeView>::empty());
        assert(nodes_view(items@.take(0)) =~= Seq::<NodeView>::empty());
    }
    while i < items.len()
        invariant
            i <= items@.len(),
            out@ == spec_render_items(nodes_view(items@).take(i as int), ind@),
        decreases items@.len() - i,
    {
        let piece = render_item(&items[i], ind);
        out.append(piece.as_str());
        proof {
            lemma_nodes_view_index(items@, i as int);
            assert(nodes_view(items@).take(i + 1) =~= nodes_view(items@).take(i as int).push(
                nodes_view(items@)[i as int],
            ));
            lemma_render_items_push(
                nodes_view(items@).take(i as int),
                nodes_view(items@)[i as int],
                ind@,
            );
        }
        i = i + 1;
    }
    proof {
        lemma_nodes_view_len(items@);
        assert(nodes_view(items@).take(items@.len() as int) =~= nodes_view(items@));
    }
    out
}

/// The view list indexes pointwise into the node views.
pub proof fn lemma_nodes_view_index(items: Seq<SidebarItem>, i: int)
    requires
        0 <= i < items.len(),
    ensures
        nodes_view(items).len() == items.len(),
        nodes_view(items)[i] == items[i].node_view(),
    decreases items,
{
    lemma_nodes_view_len(items);
    if i > 0 {
        lemma_nodes_view_index(items.drop_first(), i - 1);
    }
}

/// The view list has the same length.
pub proof fn lemma_nodes_view_len(items: Seq<SidebarItem>)
    ensures
        nodes_view(items).len() == items.len(),
    decreases items,
{
    if items.len() > 0 {
        lemma_nodes_view_len(items.drop_first());
    }
}

/// Render one sidebar node at the given indentation level.
pub fn format_sidebar_item(item: &SidebarItem, indent: usize) -> (r: String)
    ensures
        r@ == spec_render_item(item.node_view(), spec_indent(indent as nat)),
{
    let mut ind = String::new();
    let mut j: usize = 0;
    while j < indent
        invariant
            j <= indent,
            ind@ == spec_indent(j as nat),
        decreases indent - j,
    {
        ind.append("  ");
        proof {
            lemma_indent_snoc(j as nat);
        }
        j = j + 1;
    }
    render_item(item, ind.as_str())
}


/// A list view grows by one node per push.
pub proof fn lemma_nodes_view_push(items: Seq<SidebarItem>, x: SidebarItem)
    ensures
        nodes_view(items.push(x)) =~= nodes_view(items) + seq![x.node_view()],
    decreases items,
{
    if items.len() == 0 {
        assert(items.push(x)[0] == x);
        assert(items.push(x).drop_first() =~= Seq::<SidebarItem>::empty());
        assert(nodes_view(Seq::<SidebarItem>::empty()) =~= Seq::<NodeView>::empty());
    } else {
        assert(items.push(x)[0] == items[0]);
        assert(items.push(x).drop_first() =~= items.drop_first().push(x));
        lemma_nodes_view_push(items.drop_first(), x);
    }
}

/// The ids of the bucket carrying `k`; empty when none does.
pub open spec fn spec_bucket_ids(s: Seq<ModuleBucket>, k: Seq<Seq<char>>) -> Seq<u64>
    decreases s.len(),
{
    if s.len() == 0 {
        Seq::empty()
    } else if seq_views(s[0].key@) == k {
        s[0].item_ids@
    } else {
        spec_bucket_ids(s.drop_first(), k)
    }
}

/// Find the bucket with the given key.
fn find_bucket<'a>(b: &'a ModuleBuckets, k: &Vec<String>) -> (r: Option<&'a ModuleBucket>)
    ensures
        match r {
            Some(mb) => seq_views(mb.key@) == seq_views(k@) && spec_bucket_ids(
                b.buckets@,
                seq_views(k@),
            ) == mb.item_ids@,
            None => spec_bucket_ids(b.buckets@, seq_views(k@)) == Seq::<u64>::empty(),
        },
{
    let mut i: usize = 0;
    proof {
        assert(b.buckets@.skip(0) =~= b.buckets@);
    }
    while i < b.buckets.len()
        invariant
            i <= b.buckets@.len(),
            spec_bucket_ids(b.buckets@, seq_views(k@)) == spec_bucket_ids(
                b.buckets@.skip(i as int),
                seq_views(k@),
            ),
        decreases b.buckets@.len() - i,
    {
        proof {
            assert(b.buckets@.skip(i as int)[0] == b.buckets@[i as int]);
            assert(b.buckets@.skip(i as int).drop_first() =~= b.buckets@.skip(i as int + 1));
        }
        if path_eq(&b.buckets[i].key, k) {
            return Some(&b.buckets[i]);
        }
        i = i + 1;
    }
    proof {
        assert(b.buckets@.skip(b.buckets@.len() as int).len() == 0);
    }
    None
}

/// The sidebar category an item kind is listed under.
pub open spec fn spec_cat_of(k: ItemKind) -> Seq<char> {
    match k {
        ItemKind::Struct => "Structs"@,
        ItemKind::Enum => "Enums"@,
        ItemKind::Trait => "Traits"@,
        ItemKind::Function => "Functions"@,
        ItemKind::Constant => "Constants"@,
        ItemKind::TypeAlias => "Type Aliases"@,
        _ => "Primitives"@,
    }
}

/// The styling class for an item kind.
pub open spec fn spec_class_of(k: ItemKind) -> Seq<char> {
    match k {
        ItemKind::Struct => "rust-struct"@,
        ItemKind::Enum => "rust-struct"@,
        ItemKind::Trait => "rust-trait"@,
        ItemKind::Function => "rust-fn"@,
        ItemKind::Constant => "rust-constant"@,
        ItemKind::TypeAlias => "rust-type"@,
        _ => "rust-item"@,
    }
}

fn cat_of(k: ItemKind) -> (r: &'static str)
    ensures
        r@ == spec_cat_of(k),
{
    match k {
        ItemKind::Struct => "Structs",
        ItemKind::Enum => "Enums",
        ItemKind::Trait => "Traits",
        ItemKind::Function => "Functions",
        ItemKind::Constant => "Constants",
        ItemKind::TypeAlias => "Type Aliases",
        _ => "Primitives",
    }
}

fn class_of(k: ItemKind) -> (r: &'static str)
    ensures
        r@ == spec_class_of(k),
{
    match k {
        ItemKind::Struct => "rust-struct",
        ItemKind::Enum => "rust-struct",
        ItemKind::Trait => "rust-trait",
        ItemKind::Function => "rust-fn",
        ItemKind::Constant => "rust-constant",
        ItemKind::TypeAlias => "rust-type",
        _ => "rust-item",
    }
}

/// A path under the sidebar prefix.
pub open spec fn spec_with_prefix(prefix: Seq<char>, rest: Seq<char>) -> Seq<char> {
    if prefix.len() == 0 {
        rest
    } else {
        prefix + "/"@ + rest
    }
}

/// The document entries for the items of one category, in bucket order.
pub open spec fn spec_cat_docs(
    store: &ItemStore,
    ids: Seq<u64>,
    cat: Seq<char>,
    base: Seq<char>,
) -> Seq<NodeView>
    decreases ids.len(),
{
    if ids.len() == 0 {
        Seq::empty()
    } else {
        let rest = spec_cat_docs(store, ids.drop_first(), cat, base);
        match spec_assoc(store.items@, ids[0]) {
            Some(it) => match it.name {
                Some(n) => if it.kind != ItemKind::Module && spec_cat_of(it.kind) == cat {
                    seq![
                        NodeView::Doc {
                            id: base + spec_item_prefix(it.kind) + n@,
                            label: Some(n@),
                            custom_props: Some(spec_class_of(it.kind)),
                        },
                    ] + rest
                } else {
                    rest
                },
                None => rest,
            },
            None => rest,
        }
    }
}

/// Build the document entries for one category.
fn cat_docs(store: &ItemStore, ids: &Vec<u64>, cat: &str, base: &str) -> (r: Vec<SidebarItem>)
    ensures
        nodes_view(r@) == spec_cat_docs(store, ids@, cat@, base@),
{
    let mut r: Vec<SidebarItem> = Vec::new();
    let mut i: usize = 0;
    proof {
        assert(ids@.skip(0) =~= ids@);
        assert(nodes_view(r@) =~= Seq::<NodeView>::empty());
        assert(spec_cat_docs(store, ids@, cat@, base@) =~= nodes_view(r@) + spec_cat_docs(
            store,
            ids@.skip(0),
            cat@,
            base@,
        ));
    }
    while i < ids.len()
        invariant
            i <= ids@.len(),
            spec_cat_docs(store, ids@, cat@, base@) =~= nodes_view(r@) + spec_cat_docs(
                store,
                ids@.skip(i as int),
                cat@,
                base@,
            ),
        decreases ids@.len() - i,
    {
        proof {
            assert(ids@.skip(i as int)[0] == ids@[i as int]);
            assert(ids@.skip(i as int).drop_first() =~= ids@.skip(i as int + 1));
        }
        match store.find_item(ids[i]) {
            Some(it) => {
                match &it.name {
                    Some(n) => {
                        let listed = !matches!(it.kind, ItemKind::Module) && str_eq(
                            cat_of(it.kind),
                            cat,
                        );
                        if listed {
                            let mut idtext = String::from_str(base);
                            idtext.append(crate::store::get_item_prefix(it));
                            idtext.append(n.as_str());
                            let node = SidebarItem::Doc {
                                id: idtext,
                                label: Some(n.clone()),
                                custom_props: Some(String::from_str(class_of(it.kind))),
                            };
                            let ghost nv = node.node_view();
                            let ghost r0seq = r@;
                            r.push(node);
                            proof {
                                assert(r@ == r0seq.push(r@.last()));
                                lemma_nodes_view_push(r0seq, r@.last());
                                assert(nodes_view(r@) =~= nodes_view(r0seq) + seq![nv]);
                            }
                        }
                    },
                    None => {},
                }
            },
            None => {},
        }
        i = i + 1;
    }
    proof {
        assert(ids@.skip(ids@.len() as int).len() == 0);
        assert(spec_cat_docs(store, ids@.skip(ids@.len() as int), cat@, base@) =~= Seq::<
            NodeView,
        >::empty());
        assert(nodes_view(r@) =~= spec_cat_docs(store, ids@, cat@, base@));
    }
    r
}

/// Whether a key is listed as a child module in the given context.
pub open spec fn spec_is_child_key(
    k: Seq<Seq<char>>,
    target: Option<Seq<Seq<char>>>,
    crate_name: Seq<char>,
) -> bool {
    match target {
        Some(t) => k.len() == t.len() + 1 && k.take(t.len() as int) == t,
        None => k.len() == 1 && k[0] != crate_name,
    }
}

/// The child-module document entries, in key order.
pub open spec fn spec_child_docs(
    bks: Seq<ModuleBucket>,
    target: Option<Seq<Seq<char>>>,
    crate_name: Seq<char>,
    prefix: Seq<char>,
) -> Seq<NodeView>
    decreases bks.len(),
{
    if bks.len() == 0 {
        Seq::empty()
    } else {
        let rest = spec_child_docs(bks.drop_first(), target, crate_name, prefix);
        let k = seq_views(bks[0].key@);
        if spec_is_child_key(k, target, crate_name) {
            seq![
                NodeView::Doc {
                    id: spec_with_prefix(prefix, spec_join(k, "/"@) + "/index"@),
                    label: Some(k.last()),
                    custom_props: Some("rust-mod"@),
                },
            ] + rest
        } else {
            rest
        }
    }
}

/// Build the child-module document entries.
fn child_docs(
    b: &ModuleBuckets,
    target: Option<&Vec<String>>,
    crate_name: &str,
    prefix: &str,
) -> (r: Vec<SidebarItem>)
    ensures
        nodes_view(r@) == spec_child_docs(
            b.buckets@,
            match target {
                Some(t) => Some(seq_views(t@)),
                None => None,
            },
            crate_name@,
            prefix@,
        ),
{
    let ghost tv: Option<Seq<Seq<char>>> = match target {
        Some(t) => Some(seq_views(t@)),
        None => None,
    };
    let mut r: Vec<SidebarItem> = Vec::new();
    let mut i: usize = 0;
    proof {
        assert(b.buckets@.skip(0) =~= b.buckets@);
        assert(nodes_view(r@) =~= Seq::<NodeView>::empty());
        assert(spec_child_docs(b.buckets@, tv, crate_name@, prefix@) =~= nodes_view(r@)
            + spec_child_docs(b.buckets@.skip(0), tv, crate_name@, prefix@));
    }
    while i < b.buckets.len()
        invariant
            i <= b.buckets@.len(),
            tv == (match target {
                Some(t) => Some(seq_views(t@)),
                None => None,
            }),
            spec_child_docs(b.buckets@, tv, crate_name@, prefix@) =~= nodes_view(r@)
                + spec_child_docs(b.buckets@.skip(i as int), tv, crate_name@, prefix@),
        decreases b.buckets@.len() - i,
    {
        proof {
            assert(b.buckets@.skip(i as int)[0] == b.buckets@[i as int]);
            assert(b.buckets@.skip(i as int).drop_first() =~= b.buckets@.skip(i as int + 1));
        }
        let key = &b.buckets[i].key;
        let ghost kv = seq_views(key@);
        let mut is_child = false;
        match target {
            Some(t) => {
                if key.len() >= 1 && key.len() - 1 == t.len() {
                    let mut pref_eq = true;
                    let mut j: usize = 0;
                    while j < t.len()
                        invariant
                            j <= t@.len(),
                            key@.len() == t@.len() + 1,
                            kv == seq_views(key@),
                            pref_eq == (forall|q: int| 0 <= q < j ==> kv[q] == seq_views(t@)[q]),
                        decreases t@.len() - j,
                    {
                        if !str_eq(key[j].as_str(), t[j].as_str()) {
                            pref_eq = false;
                            proof {
                                assert(kv[j as int] != seq_views(t@)[j as int]);
                            }
                            j = t.len();
                        } else {
                            proof {
                                assert(kv[j as int] == seq_views(t@)[j as int]);
                            }
                            j = j + 1;
                        }
                    }
                    if pref_eq {
                        proof {
                            assert(kv.take(seq_views(t@).len() as int) =~= seq_views(t@));
                        }
                        is_child = true;
                    } else {
                        proof {
                            if kv.take(seq_views(t@).len() as int) == seq_views(t@) {
                                let q = choose|q: int|
                                    0 <= q < seq_views(t@).len() && kv[q] != seq_views(t@)[q];
                                assert(kv.take(seq_views(t@).len() as int)[q] == kv[q]);
                            }
                        }
                    }
                }
            },
            None => {
                if key.len() == 1 {
                    if !str_eq(key[0].as_str(), crate_name) {
                        is_child = true;
                    }
                }
            },
        }
        proof {
            assert(is_child == spec_is_child_key(kv, tv, crate_name@));
        }
        if is_child {
            let joined = join_strings(key, "/");
            let mut idtext = String::new();
            if prefix.unicode_len() > 0 {
                idtext.append(prefix);
                idtext.append("/");
            }
            idtext.append(joined.as_str());
            idtext.append("/index");
            proof {
                assert(idtext@ =~= spec_with_prefix(prefix@, spec_join(kv, "/"@) + "/index"@));
            }
            let label = key[key.len() - 1].clone();
            proof {
                assert(label@ == kv.last());
            }
            let node = SidebarItem::Doc {
                id: idtext,
                label: Some(label),
                custom_props: Some(String::from_str("rust-mod")),
            };
            let ghost nv = node.node_view();
            proof {
                assert(nv == NodeView::Doc {
                    id: spec_with_prefix(prefix@, spec_join(kv, "/"@) + "/index"@),
                    label: Some(kv.last()),
                    custom_props: Some("rust-mod"@),
                });
            }
            let ghost r0seq = r@;
            r.push(node);
            proof {
                assert(r@ == r0seq.push(r@.last()));
                lemma_nodes_view_push(r0seq, r@.last());
                assert(nodes_view(r@) =~= nodes_view(r0seq) + seq![nv]);
            }
        }
        i = i + 1;
    }
    proof {
        assert(b.buckets@.skip(b.buckets@.len() as int).len() == 0);
        assert(spec_child_docs(
            b.buckets@.skip(b.buckets@.len() as int),
            tv,
            crate_name@,
            prefix@,
        ) =~= Seq::<NodeView>::empty());
        assert(nodes_view(r@) =~= spec_child_docs(b.buckets@, tv, crate_name@, prefix@));
    }
    r
}


/// Concatenation of node lists distributes over their views.
proof fn lemma_nodes_view_concat(a: Seq<SidebarItem>, b: Seq<SidebarItem>)
    ensures
        nodes_view(a + b) =~= nodes_view(a) + nodes_view(b),
    decreases a.len(),
{
    if a.len() == 0 {
        assert(a + b =~= b);
        assert(nodes_view(a) =~= Seq::<NodeView>::empty());
    } else {
        lemma_nodes_view_concat(a.drop_first(), b);
        assert((a + b)[0] == a[0]);
        assert((a + b).drop_first() =~= a.drop_first() + b);
        assert(nodes_view(a + b) =~= seq![a[0].node_view()] + nodes_view(a.drop_first() + b));
        assert(nodes_view(a) + nodes_view(b) =~= seq![a[0].node_view()] + (nodes_view(
            a.drop_first(),
        ) + nodes_view(b)));
    }
}

/// Append one node list onto another.
fn append_items(dst: &mut Vec<SidebarItem>, src: Vec<SidebarItem>)
    ensures
        nodes_view(final(dst)@) == nodes_view(old(dst)@) + nodes_view(src@),
{
    let ghost d0 = dst@;
    let ghost s0 = src@;
    let mut src = src;
    dst.append(&mut src);
    proof {
        lemma_nodes_view_concat(d0, s0);
    }
}

/// Stable insertion of a name into a sorted list: it goes after every name
/// that does not come after it.
pub open spec fn spec_insert_name(x: Seq<char>, s: Seq<Seq<char>>) -> Seq<Seq<char>>
    decreases s.len(),
{
    if s.len() == 0 {
        seq![x]
    } else if !lex_lt(x, s[0]) {
        seq![s[0]] + spec_insert_name(x, s.drop_first())
    } else {
        seq![x] + s
    }
}

/// The stable sort of a list of names.
pub open spec fn spec_sort_names(s: Seq<Seq<char>>) -> Seq<Seq<char>>
    decreases s.len(),
{
    if s.len() == 0 {
        Seq::empty()
    } else {
        spec_insert_name(s.last(), spec_sort_names(s.drop_last()))
    }
}

proof fn lemma_insert_name_split(x: Seq<char>, s: Seq<Seq<char>>, p: int)
    requires
        0 <= p <= s.len(),
        forall|j: int| 0 <= j < p ==> !lex_lt(x, #[trigger] s[j]),
        p < s.len() ==> lex_lt(x, s[p]),
    ensures
        spec_insert_name(x, s) == s.insert(p, x),
    decreases p,
{
    if p == 0 {
        if s.len() == 0 {
            assert(spec_insert_name(x, s) =~= s.insert(0, x));
        } else {
            assert(spec_insert_name(x, s) =~= seq![x] + s);
            assert(s.insert(0, x) =~= seq![x] + s);
        }
    } else {
        assert(!lex_lt(x, s[0]));
        lemma_insert_name_split(x, s.drop_first(), p - 1);
        assert(spec_insert_name(x, s) =~= seq![s[0]] + s.drop_first().insert(p - 1, x));
        assert(s.insert(p, x) =~= seq![s[0]] + s.drop_first().insert(p - 1, x));
    }
}

/// Sort a list of names, stably.
fn sort_names(names: &Vec<String>) -> (r: Vec<String>)
    ensures
        seq_views(r@) == spec_sort_names(seq_views(names@)),
{
    let mut r: Vec<String> = Vec::new();
    let mut i: usize = 0;
    proof {
        assert(seq_views(names@).take(0) =~= Seq::<Seq<char>>::empty());
        assert(seq_views(r@) =~= spec_sort_names(seq_views(names@).take(0)));
    }
    while i < names.len()
        invariant
            i <= names@.len(),
            seq_views(r@) == spec_sort_names(seq_views(names@).take(i as int)),
            r@.len() == i,
        decreases names@.len() - i,
    {
        let x = &names[i];
        let ghost xv = x@;
        let mut p: usize = 0;
        loop
            invariant
                p <= r@.len(),
                xv == x@,
                seq_views(r@) == spec_sort_names(seq_views(names@).take(i as int)),
                r@.len() == i,
                i < names@.len(),
                xv == seq_views(names@)[i as int],
                forall|j: int| 0 <= j < p ==> !lex_lt(xv, #[trigger] seq_views(r@)[j]),
            ensures
                p <= r@.len(),
                r@.len() == i,
                forall|j: int| 0 <= j < p ==> !lex_lt(xv, #[trigger] seq_views(r@)[j]),
                p < r@.len() ==> lex_lt(xv, seq_views(r@)[p as int]),
            decreases r@.len() - p,
        {
            if p == r.len() {
                break;
            }
            if str_lt(x.as_str(), r[p].as_str()) {
                break;
            }
            proof {
                assert(!lex_lt(xv, seq_views(r@)[p as int]));
            }
            p = p + 1;
        }
        let ghost rv0 = seq_views(r@);
        r.insert(p, x.clone());
        proof {
            assert(seq_views(r@) =~= rv0.insert(p as int, xv));
            lemma_insert_name_split(xv, rv0, p as int);
            assert(seq_views(names@).take(i + 1).drop_last() =~= seq_views(names@).take(i as int));
            assert(seq_views(names@).take(i + 1).last() == xv);
        }
        i = i + 1;
    }
    proof {
        assert(seq_views(names@).take(names@.len() as int) =~= seq_views(names@));
    }
    r
}

/// The document entries for the sibling projects, one per name, in sorted
/// order.
pub open spec fn spec_crate_docs(names: Seq<Seq<char>>, prefix: Seq<char>) -> Seq<NodeView>
    decreases names.len(),
{
    if names.len() == 0 {
        Seq::empty()
    } else {
        seq![
            NodeView::Doc {
                id: spec_with_prefix(prefix, crate::links::norm_name(names[0]) + "/index"@),
                label: Some(names[0]),
                custom_props: Some("rust-mod"@),
            },
        ] + spec_crate_docs(names.drop_first(), prefix)
    }
}

/// The clickable project title shown at the top of every sidebar.
pub open spec fn spec_title_doc(
    crate_name: Seq<char>,
    prefix: Seq<char>,
    version: Option<Seq<char>>,
) -> NodeView {
    NodeView::Doc {
        id: spec_with_prefix(prefix, crate_name + "/index"@),
        label: Some(crate_name),
        custom_props: Some(
            "{ rustCrateTitle: true, crateName: '"@ + crate_name + "', version: '"@ + (match version {
                Some(v) => v,
                None => Seq::empty(),
            }) + "' }"@,
        ),
    }
}

/// A category around a non-empty item list; nothing otherwise.
pub open spec fn spec_wrap_cat(label: Seq<char>, items: Seq<NodeView>) -> Seq<NodeView> {
    if items.len() == 0 {
        Seq::empty()
    } else {
        seq![NodeView::Category { label, items, collapsed: false, link: None }]
    }
}

/// One module's full sidebar: the project title (and back link on the entry
/// page), the surrounding module's members grouped into kind categories, and
/// the sibling-project list on the entry page.
pub open spec fn spec_sidebar_for_module(
    store: &ItemStore,
    bks: Seq<ModuleBucket>,
    crate_name: Seq<char>,
    module_key: Seq<Seq<char>>,
    prefix: Seq<char>,
    is_root: bool,
    version: Option<Seq<char>>,
    show_all: bool,
    crates: Seq<Seq<char>>,
    root_link: Option<Seq<char>>,
) -> Seq<NodeView> {
    let back: Seq<NodeView> = if is_root {
        match root_link {
            Some(l) => seq![
                NodeView::Link {
                    href: l,
                    label: "<- Go back"@,
                    custom_props: Some("rust-sidebar-back-link"@),
                },
            ],
            None => Seq::empty(),
        }
    } else {
        Seq::empty()
    };
    let head = back + seq![spec_title_doc(crate_name, prefix, version)];
    let section: Seq<NodeView> = if is_root {
        Seq::empty()
    } else {
        let target: Option<Seq<Seq<char>>> = if show_all {
            Some(module_key)
        } else if module_key == seq![crate_name] {
            Some(module_key)
        } else if module_key.len() >= 2 {
            Some(module_key.drop_last())
        } else {
            None
        };
        let label: Seq<char> = if show_all {
            "In "@ + spec_join(module_key, "::"@)
        } else if module_key == seq![crate_name] {
            "In "@ + crate_name
        } else if module_key.len() >= 2 {
            "In "@ + spec_join(module_key.drop_last(), "::"@)
        } else {
            "In crate "@ + crate_name
        };
        let parent_path: Seq<char> = match target {
            Some(t) => spec_join(t, "/"@),
            None => crate_name,
        };
        let ids = match target {
            Some(t) => spec_bucket_ids(bks, t),
            None => spec_bucket_ids(bks, seq![crate_name]),
        };
        let base = spec_with_prefix(prefix, parent_path + "/"@);
        let mods = spec_child_docs(bks, target, crate_name, prefix);
        let cats = spec_wrap_cat("Modules"@, mods) + spec_wrap_cat(
            "Structs"@,
            spec_cat_docs(store, ids, "Structs"@, base),
        ) + spec_wrap_cat("Enums"@, spec_cat_docs(store, ids, "Enums"@, base)) + spec_wrap_cat(
            "Traits"@,
            spec_cat_docs(store, ids, "Traits"@, base),
        ) + spec_wrap_cat("Functions"@, spec_cat_docs(store, ids, "Functions"@, base))
            + spec_wrap_cat("Type Aliases"@, spec_cat_docs(store, ids, "Type Aliases"@, base))
            + spec_wrap_cat("Constants"@, spec_cat_docs(store, ids, "Constants"@, base))
            + spec_wrap_cat("Primitives"@, spec_cat_docs(store, ids, "Primitives"@, base));
        if cats.len() == 0 {
            Seq::empty()
        } else if show_all || target != Some(seq![crate_name]) {
            seq![
                NodeView::Category {
                    label,
                    items: cats,
                    collapsed: false,
                    link: Some(spec_with_prefix(prefix, parent_path + "/index"@)),
                },
            ]
        } else {
            cats
        }
    };
    let crates_part: Seq<NodeView> = if is_root && crates.len() > 1 {
        seq![
            NodeView::Category {
                label: "Crates"@,
                items: spec_crate_docs(spec_sort_names(crates), prefix),
                collapsed: false,
                link: None,
            },
        ]
    } else {
        Seq::empty()
    };
    head + section + crates_part
}


/// Build the document entries for the sibling projects.
fn crate_docs(names: &Vec<String>, prefix: &str) -> (r: Vec<SidebarItem>)
    ensures
        nodes_view(r@) == spec_crate_docs(seq_views(names@), prefix@),
{
    let mut r: Vec<SidebarItem> = Vec::new();
    let mut i: usize = 0;
    proof {
        assert(seq_views(names@).skip(0) =~= seq_views(names@));
        assert(nodes_view(r@) =~= Seq::<NodeView>::empty());
        assert(spec_crate_docs(seq_views(names@), prefix@) =~= nodes_view(r@) + spec_crate_docs(
            seq_views(names@).skip(0),
            prefix@,
        ));
    }
    while i < names.len()
        invariant
            i <= names@.len(),
            spec_crate_docs(seq_views(names@), prefix@) =~= nodes_view(r@) + spec_crate_docs(
                seq_views(names@).skip(i as int),
                prefix@,
            ),
        decreases names@.len() - i,
    {
        proof {
            assert(seq_views(names@).skip(i as int)[0] == seq_views(names@)[i as int]);
            assert(seq_views(names@).skip(i as int).drop_first() =~= seq_views(names@).skip(
                i as int + 1,
            ));
        }
        let normed = crate::strutil::str_replace_char(names[i].as_str(), '-', '_');
        let mut idtext = String::new();
        if prefix.unicode_len() > 0 {
            idtext.append(prefix);
            idtext.append("/");
        }
        idtext.append(normed.as_str());
        idtext.append("/index");
        proof {
            assert(idtext@ =~= spec_with_prefix(
                prefix@,
                crate::links::norm_name(seq_views(names@)[i as int]) + "/index"@,
            ));
        }
        let node = SidebarItem::Doc {
            id: idtext,
            label: Some(names[i].clone()),
            custom_props: Some(String::from_str("rust-mod")),
        };
        let ghost nv = node.node_view();
        let ghost r0seq = r@;
        r.push(node);
        proof {
            assert(r@ == r0seq.push(r@.last()));
            lemma_nodes_view_push(r0seq, r@.last());
            assert(nodes_view(r@) =~= nodes_view(r0seq) + seq![nv]);
        }
        i = i + 1;
    }
    proof {
        assert(seq_views(names@).skip(names@.len() as int).len() == 0);
        assert(spec_crate_docs(seq_views(names@).skip(names@.len() as int), prefix@) =~= Seq::<
            NodeView,
        >::empty());
        assert(nodes_view(r@) =~= spec_crate_docs(seq_views(names@), prefix@));
    }
    r
}

/// Append one wrapped category when its items are non-empty.
fn push_wrapped_cat(dst: &mut Vec<SidebarItem>, label: &'static str, items: Vec<SidebarItem>)
    ensures
        nodes_view(final(dst)@) == nodes_view(old(dst)@) + spec_wrap_cat(
            label@,
            nodes_view(items@),
        ),
{
    if items.len() == 0 {
        proof {
            assert(nodes_view(items@) =~= Seq::<NodeView>::empty());
            assert(nodes_view(dst@) =~= nodes_view(dst@) + spec_wrap_cat(
                label@,
                nodes_view(items@),
            ));
        }
        return;
    }
    proof {
        assert(nodes_view(items@).len() == items@.len()) by {
            lemma_nodes_view_len(items@);
        }
    }
    let node = SidebarItem::Category {
        label: String::from_str(label),
        items,
        collapsed: false,
        link: None,
    };
    let ghost nv = node.node_view();
    let ghost d0 = dst@;
    dst.push(node);
    proof {
        assert(dst@ == d0.push(dst@.last()));
        lemma_nodes_view_push(d0, dst@.last());
        assert(nodes_view(dst@) =~= nodes_view(d0) + seq![nv]);
    }
}

/// Generate the sidebar for one navigation context.
#[verifier::rlimit(100)]
pub fn generate_sidebar_for_module(
    store: &ItemStore,
    buckets: &ModuleBuckets,
    crate_name: &str,
    module_key: &Vec<String>,
    sidebar_prefix: &str,
    is_root: bool,
    crate_version: &Option<String>,
    show_all_parent_items: bool,
    workspace_crates: &Vec<String>,
    sidebar_root_link: &Option<String>,
) -> (r: Vec<SidebarItem>)
    ensures
        nodes_view(r@) == spec_sidebar_for_module(
            store,
            buckets.buckets@,
            crate_name@,
            seq_views(module_key@),
            sidebar_prefix@,
            is_root,
            opt_view(*crate_version),
            show_all_parent_items,
            seq_views(workspace_crates@),
            opt_view(*sidebar_root_link),
        ),
{
    let ghost mk = seq_views(module_key@);
    let mut out: Vec<SidebarItem> = Vec::new();
    // back link and project title
    if is_root {
        match sidebar_root_link {
            Some(l) => {
                let node = SidebarItem::Link {
                    href: l.clone(),
                    label: String::from_str("<- Go back"),
                    custom_props: Some(String::from_str("rust-sidebar-back-link")),
                };
                let ghost nv = node.node_view();
                let ghost d0 = out@;
                out.push(node);
                proof {
                    assert(out@ == d0.push(out@.last()));
                    lemma_nodes_view_push(d0, out@.last());
                }
            },
            None => {},
        }
    }
    let mut title_id = String::new();
    if sidebar_prefix.unicode_len() > 0 {
        title_id.append(sidebar_prefix);
        title_id.append("/");
    }
    title_id.append(crate_name);
    title_id.append("/index");
    let mut title_props = String::from_str("{ rustCrateTitle: true, crateName: '");
    title_props.append(crate_name);
    title_props.append("', version: '");
    match crate_version {
        Some(v) => {
            title_props.append(v.as_str());
        },
        None => {},
    }
    title_props.append("' }");
    proof {
        assert(title_id@ =~= spec_with_prefix(sidebar_prefix@, crate_name@ + "/index"@));
        assert(title_props@ =~= "{ rustCrateTitle: true, crateName: '"@ + crate_name@
            + "', version: '"@ + (match opt_view(*crate_version) {
            Some(v) => v,
            None => Seq::<char>::empty(),
        }) + "' }"@);
    }
    let title = SidebarItem::Doc {
        id: title_id,
        label: Some(String::from_str(crate_name)),
        custom_props: Some(title_props),
    };
    proof {
        assert(title.node_view() == spec_title_doc(
            crate_name@,
            sidebar_prefix@,
            opt_view(*crate_version),
        ));
    }
    let ghost d1 = out@;
    out.push(title);
    proof {
        assert(out@ == d1.push(out@.last()));
        lemma_nodes_view_push(d1, out@.last());
    }
    let ghost head_views = nodes_view(out@);
    // the surrounding module's members, grouped by kind
    if !is_root {
        // pick the module whose members are shown, and the section label
        let crate_key: Vec<String> = vec![String::from_str(crate_name)];
        proof {
            assert(seq_views(crate_key@) =~= seq![crate_name@]);
        }
        let is_crate_key = crate::strutil::path_eq(module_key, &crate_key);
        let mut target: Option<Vec<String>> = None;
        let mut label = String::new();
        if show_all_parent_items {
            target = Some(clone_segments(module_key));
            label.append("In ");
            let j = join_strings(module_key, "::");
            label.append(j.as_str());
        } else if is_crate_key {
            target = Some(clone_segments(module_key));
            label.append("In ");
            label.append(crate_name);
        } else if module_key.len() >= 2 {
            let mut par = clone_segments(module_key);
            let ghost before = seq_views(par@);
            par.pop();
            proof {
                assert(seq_views(par@) =~= mk.drop_last());
            }
            label.append("In ");
            let j = join_strings(&par, "::");
            label.append(j.as_str());
            target = Some(par);
        } else {
            label.append("In crate ");
            label.append(crate_name);
        }
        let ghost tv: Option<Seq<Seq<char>>> = match &target {
            Some(t) => Some(seq_views(t@)),
            None => None,
        };
        // parent path and the ids shown
        let parent_path: String = match &target {
            Some(t) => join_strings(t, "/"),
            None => String::from_str(crate_name),
        };
        let empty_ids: Vec<u64> = Vec::new();
        let parent_bucket = match &target {
            Some(t) => find_bucket(buckets, t),
            None => find_bucket(buckets, &crate_key),
        };
        let ids: &Vec<u64> = match parent_bucket {
            Some(mb) => &mb.item_ids,
            None => &empty_ids,
        };
        proof {
            assert(ids@ == (match tv {
                Some(t) => spec_bucket_ids(buckets.buckets@, t),
                None => spec_bucket_ids(buckets.buckets@, seq![crate_name@]),
            }));
        }
        let mut base = String::new();
        if sidebar_prefix.unicode_len() > 0 {
            base.append(sidebar_prefix);
            base.append("/");
        }
        base.append(parent_path.as_str());
        base.append("/");
        proof {
            assert(base@ =~= spec_with_prefix(sidebar_prefix@, parent_path@ + "/"@));
        }
        let mods = match &target {
            Some(t) => child_docs(buckets, Some(t), crate_name, sidebar_prefix),
            None => child_docs(buckets, None, crate_name, sidebar_prefix),
        };
        let mut cats: Vec<SidebarItem> = Vec::new();
        push_wrapped_cat(&mut cats, "Modules", mods);
        push_wrapped_cat(&mut cats, "Structs", cat_docs(store, ids, "Structs", base.as_str()));
        push_wrapped_cat(&mut cats, "Enums", cat_docs(store, ids, "Enums", base.as_str()));
        push_wrapped_cat(&mut cats, "Traits", cat_docs(store, ids, "Traits", base.as_str()));
        push_wrapped_cat(&mut cats, "Functions", cat_docs(store, ids, "Functions", base.as_str()));
        push_wrapped_cat(
            &mut cats,
            "Type Aliases",
            cat_docs(store, ids, "Type Aliases", base.as_str()),
        );
        push_wrapped_cat(&mut cats, "Constants", cat_docs(store, ids, "Constants", base.as_str()));
        push_wrapped_cat(
            &mut cats,
            "Primitives",
            cat_docs(store, ids, "Primitives", base.as_str()),
        );
        let ghost cats_views = nodes_view(cats@);
        if cats.len() > 0 {
            proof {
                lemma_nodes_view_len(cats@);
            }
            let wrap = show_all_parent_items || match &target {
                Some(t) => !crate::strutil::path_eq(t, &crate_key),
                None => true,
            };
            proof {
                assert(wrap == (show_all_parent_items || tv != Some(seq![crate_name@])));
            }
            if wrap {
                let mut plink = String::new();
                if sidebar_prefix.unicode_len() > 0 {
                    plink.append(sidebar_prefix);
                    plink.append("/");
                }
                plink.append(parent_path.as_str());
                plink.append("/index");
                proof {
                    assert(plink@ =~= spec_with_prefix(
                        sidebar_prefix@,
                        parent_path@ + "/index"@,
                    ));
                }
                let node = SidebarItem::Category {
                    label,
                    items: cats,
                    collapsed: false,
                    link: Some(plink),
                };
                let ghost nv = node.node_view();
                let ghost d2 = out@;
                out.push(node);
                proof {
                    assert(out@ == d2.push(out@.last()));
                    lemma_nodes_view_push(d2, out@.last());
                }
            } else {
                append_items(&mut out, cats);
            }
        } else {
            proof {
                lemma_nodes_view_len(cats@);
                assert(cats_views.len() == 0);
            }
        }
    }
    // the sibling-project list, on the entry page only
    if is_root && workspace_crates.len() > 1 {
        let sorted = sort_names(workspace_crates);
        let docs = crate_docs(&sorted, sidebar_prefix);
        proof {
            lemma_nodes_view_len(docs@);
        }
        let node = SidebarItem::Category {
            label: String::from_str("Crates"),
            items: docs,
            collapsed: false,
            link: None,
        };
        let ghost nv = node.node_view();
        let ghost d3 = out@;
        out.push(node);
        proof {
            assert(out@ == d3.push(out@.last()));
            lemma_nodes_view_push(d3, out@.last());
        }
    }
    proof {
        assert(nodes_view(out@) =~= spec_sidebar_for_module(
            store,
            buckets.buckets@,
            crate_name@,
            mk,
            sidebar_prefix@,
            is_root,
            opt_view(*crate_version),
            show_all_parent_items,
            seq_views(workspace_crates@),
            opt_view(*sidebar_root_link),
        ));
    }
    out
}


/// The navigation keys are derived from the base routing prefix: a leading
/// documentation-directory part is stripped.
pub open spec fn spec_sidebar_prefix(base: Seq<char>) -> Seq<char> {
    if base == "/docs"@ || base == "docs"@ {
        Seq::empty()
    } else if "/docs/"@.is_prefix_of(base) {
        base.skip(6)
    } else if "docs/"@.is_prefix_of(base) {
        base.skip(5)
    } else {
        base
    }
}

/// Compute the navigation prefix from the base routing prefix.
pub fn sidebar_prefix_of(base: &str) -> (r: String)
    ensures
        r@ == spec_sidebar_prefix(base@),
{
    proof {
        reveal_strlit("/docs/");
        reveal_strlit("docs/");
        assert("/docs/"@.len() == 6);
        assert("docs/"@.len() == 5);
    }
    if str_eq(base, "/docs") || str_eq(base, "docs") {
        return String::new();
    }
    if crate::strutil::str_starts_with(base, "/docs/") {
        let r = base.substring_char(6, base.unicode_len());
        proof {
            assert(r@ =~= base@.skip(6));
        }
        return r.to_owned();
    }
    if crate::strutil::str_starts_with(base, "docs/") {
        let r = base.substring_char(5, base.unicode_len());
        proof {
            assert(r@ =~= base@.skip(5));
        }
        return r.to_owned();
    }
    String::from_str(base)
}

/// Whether a bucket holds anything besides modules and re-exports.
pub open spec fn spec_has_leaf(store: &ItemStore, ids: Seq<u64>) -> bool {
    exists|i: int|
        0 <= i < ids.len() && (match spec_assoc(store.items@, #[trigger] ids[i]) {
            Some(it) => it.kind != ItemKind::Module && it.kind != ItemKind::Reexport,
            None => false,
        })
}

fn has_leaf(store: &ItemStore, ids: &Vec<u64>) -> (r: bool)
    ensures
        r == spec_has_leaf(store, ids@),
{
    let mut i: usize = 0;
    while i < ids.len()
        invariant
            i <= ids@.len(),
            forall|j: int|
                0 <= j < i ==> !(match spec_assoc(store.items@, #[trigger] ids@[j]) {
                    Some(it) => it.kind != ItemKind::Module && it.kind != ItemKind::Reexport,
                    None => false,
                }),
        decreases ids@.len() - i,
    {
        match store.find_item(ids[i]) {
            Some(it) => {
                if !matches!(it.kind, ItemKind::Module) && !matches!(it.kind, ItemKind::Reexport) {
                    proof {
                        assert(ids@[i as int] == ids@[i as int]);
                    }
                    return true;
                }
            },
            None => {},
        }
        i = i + 1;
    }
    proof {
        if spec_has_leaf(store, ids@) {
            let j = choose|j: int|
                0 <= j < ids@.len() && (match spec_assoc(store.items@, #[trigger] ids@[j]) {
                    Some(it) => it.kind != ItemKind::Module && it.kind != ItemKind::Reexport,
                    None => false,
                });
            assert(0 <= j < ids@.len());
        }
    }
    false
}

/// Whether some bucket key is a direct child of `k`.
pub open spec fn spec_has_child(all: Seq<ModuleBucket>, k: Seq<Seq<char>>) -> bool {
    exists|i: int|
        0 <= i < all.len() && seq_views(#[trigger] all[i].key@).len() == k.len() + 1 && seq_views(
            all[i].key@,
        ).take(k.len() as int) == k
}

fn has_child(b: &ModuleBuckets, k: &Vec<String>) -> (r: bool)
    ensures
        r == spec_has_child(b.buckets@, seq_views(k@)),
{
    let ghost kv = seq_views(k@);
    let mut i: usize = 0;
    while i < b.buckets.len()
        invariant
            i <= b.buckets@.len(),
            kv == seq_views(k@),
            forall|j: int|
                0 <= j < i ==> !(seq_views(#[trigger] b.buckets@[j].key@).len() == kv.len() + 1
                    && seq_views(b.buckets@[j].key@).take(kv.len() as int) == kv),
        decreases b.buckets@.len() - i,
    {
        let key = &b.buckets[i].key;
        if key.len() >= 1 && key.len() - 1 == k.len() {
            let mut par = clone_segments(key);
            par.pop();
            proof {
                assert(seq_views(par@) =~= seq_views(key@).drop_last());
            }
            if path_eq(&par, k) {
                proof {
                    assert(seq_views(b.buckets@[i as int].key@).take(kv.len() as int) =~= seq_views(
                        key@,
                    ).drop_last());
                }
                return true;
            }
            proof {
                if seq_views(b.buckets@[i as int].key@).take(kv.len() as int) == kv {
                    assert(seq_views(key@).drop_last() =~= seq_views(key@).take(kv.len() as int));
                }
            }
        }
        i = i + 1;
    }
    proof {
        if spec_has_child(b.buckets@, kv) {
            let j = choose|j: int|
                0 <= j < b.buckets@.len() && seq_views(#[trigger] b.buckets@[j].key@).len()
                    == kv.len() + 1 && seq_views(b.buckets@[j].key@).take(kv.len() as int) == kv;
            assert(0 <= j < b.buckets@.len());
        }
    }
    false
}

/// The views of a sidebar set's entries.
pub open spec fn entry_views(s: Seq<(String, Vec<SidebarItem>)>) -> Seq<(Seq<char>, Seq<NodeView>)> {
    s.map_values(|e: (String, Vec<SidebarItem>)| (e.0@, nodes_view(e.1@)))
}

/// The navigation key of a module path.
pub open spec fn spec_path_key(prefix: Seq<char>, k: Seq<Seq<char>>) -> Seq<char> {
    spec_with_prefix(prefix, spec_join(k, "/"@))
}

/// A key flattened for use as an identifier: path separators and dots
/// replaced by underscores.
pub open spec fn spec_flat_key(s: Seq<char>) -> Seq<char> {
    crate::strutil::spec_replace_char(crate::strutil::spec_replace_char(s, '/', '_'), '.', '_')
}

/// The per-module sidebar entries, one bucket after another: every module
/// page key gets the sidebar its pages display, and a browsing variant is
/// added where the module has children or leaf items.
pub open spec fn spec_module_entries(
    store: &ItemStore,
    all: Seq<ModuleBucket>,
    bks: Seq<ModuleBucket>,
    crate_name: Seq<char>,
    prefix: Seq<char>,
    version: Option<Seq<char>>,
    crates: Seq<Seq<char>>,
    root_link: Option<Seq<char>>,
) -> Seq<(Seq<char>, Seq<NodeView>)>
    decreases bks.len(),
{
    if bks.len() == 0 {
        Seq::empty()
    } else {
        let rest = spec_module_entries(
            store,
            all,
            bks.drop_first(),
            crate_name,
            prefix,
            version,
            crates,
            root_link,
        );
        let k = seq_views(bks[0].key@);
        let leaf = spec_has_leaf(store, bks[0].item_ids@);
        let head: Seq<(Seq<char>, Seq<NodeView>)> = if k == seq![crate_name] {
            if leaf {
                seq![
                    (
                        spec_flat_key(spec_path_key(prefix, k)) + "_items"@,
                        spec_sidebar_for_module(
                            store,
                            all,
                            crate_name,
                            k,
                            prefix,
                            false,
                            version,
                            true,
                            crates,
                            root_link,
                        ),
                    ),
                ]
            } else {
                Seq::empty()
            }
        } else {
            seq![
                (
                    spec_path_key(prefix, k),
                    spec_sidebar_for_module(
                        store,
                        all,
                        crate_name,
                        k,
                        prefix,
                        false,
                        version,
                        leaf,
                        crates,
                        root_link,
                    ),
                ),
            ] + (if spec_has_child(all, k) || leaf {
                seq![
                    (
                        spec_flat_key(spec_path_key(prefix, k)) + "_children"@,
                        spec_sidebar_for_module(
                            store,
                            all,
                            crate_name,
                            k,
                            prefix,
                            false,
                            version,
                            true,
                            crates,
                            root_link,
                        ),
                    ),
                ]
            } else {
                Seq::empty()
            })
        };
        head + rest
    }
}

/// The whole sidebar set: the entry page and module-browser sidebars of the
/// project root, then one entry per module bucket.
pub open spec fn spec_all_sidebar_entries(
    store: &ItemStore,
    all: Seq<ModuleBucket>,
    crate_name: Seq<char>,
    prefix: Seq<char>,
    version: Option<Seq<char>>,
    crates: Seq<Seq<char>>,
    root_link: Option<Seq<char>>,
) -> Seq<(Seq<char>, Seq<NodeView>)> {
    let root_key = spec_with_prefix(prefix, crate_name);
    let ck = seq![crate_name];
    seq![
        (
            root_key,
            spec_sidebar_for_module(
                store,
                all,
                crate_name,
                ck,
                prefix,
                true,
                version,
                false,
                crates,
                root_link,
            ),
        ),
        (
            root_key + "_modules"@,
            spec_sidebar_for_module(
                store,
                all,
                crate_name,
                ck,
                prefix,
                false,
                version,
                false,
                crates,
                root_link,
            ),
        ),
    ] + spec_module_entries(store, all, all, crate_name, prefix, version, crates, root_link)
}

/// Law: sidebar key coverage. Every module bucket key has a navigation
/// entry: the project root under its root key, every other module under its
/// page path key.
pub proof fn lemma_sidebar_key_coverage(
    store: &ItemStore,
    all: Seq<ModuleBucket>,
    bks: Seq<ModuleBucket>,
    crate_name: Seq<char>,
    prefix: Seq<char>,
    version: Option<Seq<char>>,
    crates: Seq<Seq<char>>,
    root_link: Option<Seq<char>>,
    i: int,
)
    requires
        0 <= i < bks.len(),
        seq_views(bks[i].key@) != seq![crate_name],
    ensures
        exists|e: int|
            0 <= e < spec_module_entries(
                store,
                all,
                bks,
                crate_name,
                prefix,
                version,
                crates,
                root_link,
            ).len() && spec_module_entries(
                store,
                all,
                bks,
                crate_name,
                prefix,
                version,
                crates,
                root_link,
            )[e].0 == spec_path_key(prefix, seq_views(bks[i].key@)),
    decreases i,
{
    let whole = spec_module_entries(store, all, bks, crate_name, prefix, version, crates, root_link);
    if i == 0 {
        assert(whole[0].0 == spec_path_key(prefix, seq_views(bks[0].key@)));
    } else {
        lemma_sidebar_key_coverage(
            store,
            all,
            bks.drop_first(),
            crate_name,
            prefix,
            version,
            crates,
            root_link,
            i - 1,
        );
        let sub = spec_module_entries(
            store,
            all,
            bks.drop_first(),
            crate_name,
            prefix,
            version,
            crates,
            root_link,
        );
        let e = choose|e: int|
            0 <= e < sub.len() && sub[e].0 == spec_path_key(
                prefix,
                seq_views(bks.drop_first()[i - 1].key@),
            );
        let head_len = whole.len() - sub.len();
        assert(whole[head_len + e] == sub[e]);
        assert(bks.drop_first()[i - 1] == bks[i]);
    }
}

/// Law: sidebar key coverage, at the level of the full sidebar set: every
/// bucket key's navigation key is present.
pub proof fn lemma_sidebar_set_covers_buckets(
    store: &ItemStore,
    all: Seq<ModuleBucket>,
    crate_name: Seq<char>,
    prefix: Seq<char>,
    version: Option<Seq<char>>,
    crates: Seq<Seq<char>>,
    root_link: Option<Seq<char>>,
    i: int,
)
    requires
        0 <= i < all.len(),
    ensures
        exists|e: int|
            0 <= e < spec_all_sidebar_entries(
                store,
                all,
                crate_name,
                prefix,
                version,
                crates,
                root_link,
            ).len() && spec_all_sidebar_entries(
                store,
                all,
                crate_name,
                prefix,
                version,
                crates,
                root_link,
            )[e].0 == (if seq_views(all[i].key@) == seq![crate_name] {
                spec_with_prefix(prefix, crate_name)
            } else {
                spec_path_key(prefix, seq_views(all[i].key@))
            }),
{
    let whole = spec_all_sidebar_entries(store, all, crate_name, prefix, version, crates, root_link);
    if seq_views(all[i].key@) == seq![crate_name] {
        assert(whole[0].0 == spec_with_prefix(prefix, crate_name));
    } else {
        lemma_sidebar_key_coverage(
            store,
            all,
            all,
            crate_name,
            prefix,
            version,
            crates,
            root_link,
            i,
        );
        let sub = spec_module_entries(store, all, all, crate_name, prefix, version, crates, root_link);
        let e = choose|e: int|
            0 <= e < sub.len() && sub[e].0 == spec_path_key(prefix, seq_views(all[i].key@));
        assert(whole[2 + e] == sub[e]);
    }
}


/// Build the full sidebar set for one conversion run.
pub fn build_all_sidebars(
    store: &ItemStore,
    buckets: &ModuleBuckets,
    crate_name: &str,
    base_path: &str,
    crate_version: &Option<String>,
    workspace_crates: &Vec<String>,
    sidebar_root_link: &Option<String>,
) -> (r: crate::options::SidebarSet)
    ensures
        entry_views(r.entries@) == spec_all_sidebar_entries(
            store,
            buckets.buckets@,
            crate_name@,
            spec_sidebar_prefix(base_path@),
            opt_view(*crate_version),
            seq_views(workspace_crates@),
            opt_view(*sidebar_root_link),
        ),
{
    let prefix = sidebar_prefix_of(base_path);
    let ghost pv = prefix@;
    let ghost all = buckets.buckets@;
    let ghost cn = crate_name@;
    let ghost vv = opt_view(*crate_version);
    let ghost wv = seq_views(workspace_crates@);
    let ghost lv = opt_view(*sidebar_root_link);
    let crate_key: Vec<String> = vec![String::from_str(crate_name)];
    proof {
        assert(seq_views(crate_key@) =~= seq![cn]);
    }
    let mut entries: Vec<(String, Vec<SidebarItem>)> = Vec::new();
    let mut root_key = String::new();
    if prefix.as_str().unicode_len() > 0 {
        root_key.append(prefix.as_str());
        root_key.append("/");
    }
    root_key.append(crate_name);
    proof {
        assert(root_key@ =~= spec_with_prefix(pv, cn));
    }
    let s_root = generate_sidebar_for_module(
        store,
        buckets,
        crate_name,
        &crate_key,
        prefix.as_str(),
        true,
        crate_version,
        false,
        workspace_crates,
        sidebar_root_link,
    );
    let mut mod_key = root_key.clone();
    mod_key.append("_modules");
    let s_mods = generate_sidebar_for_module(
        store,
        buckets,
        crate_name,
        &crate_key,
        prefix.as_str(),
        false,
        crate_version,
        false,
        workspace_crates,
        sidebar_root_link,
    );
    let ghost e0 = entries@;
    entries.push((root_key, s_root));
    entries.push((mod_key, s_mods));
    proof {
        assert(entry_views(entries@) =~= seq![
            (spec_with_prefix(pv, cn), spec_sidebar_for_module(
                store,
                all,
                cn,
                seq![cn],
                pv,
                true,
                vv,
                false,
                wv,
                lv,
            )),
            (spec_with_prefix(pv, cn) + "_modules"@, spec_sidebar_for_module(
                store,
                all,
                cn,
                seq![cn],
                pv,
                false,
                vv,
                false,
                wv,
                lv,
            )),
        ]);
        assert(all.skip(0) =~= all);
    }
    let mut i: usize = 0;
    while i < buckets.buckets.len()
        invariant
            i <= all.len(),
            all == buckets.buckets@,
            pv == prefix@,
            cn == crate_name@,
            vv == opt_view(*crate_version),
            wv == seq_views(workspace_crates@),
            lv == opt_view(*sidebar_root_link),
            seq_views(crate_key@) == seq![cn],
            spec_all_sidebar_entries(store, all, cn, pv, vv, wv, lv) =~= entry_views(entries@)
                + spec_module_entries(store, all, all.skip(i as int), cn, pv, vv, wv, lv),
        decreases all.len() - i,
    {
        proof {
            assert(all.skip(i as int)[0] == all[i as int]);
            assert(all.skip(i as int).drop_first() =~= all.skip(i as int + 1));
        }
        let b = &buckets.buckets[i];
        let ghost k = seq_views(b.key@);
        let leaf = has_leaf(store, &b.item_ids);
        let is_crate = path_eq(&b.key, &crate_key);
        let mut pkey = String::new();
        if prefix.as_str().unicode_len() > 0 {
            pkey.append(prefix.as_str());
            pkey.append("/");
        }
        let joined = join_strings(&b.key, "/");
        pkey.append(joined.as_str());
        proof {
            assert(pkey@ =~= spec_path_key(pv, k));
        }
        if is_crate {
            if leaf {
                let f1 = crate::strutil::str_replace_char(pkey.as_str(), '/', '_');
                let f2 = crate::strutil::str_replace_char(f1.as_str(), '.', '_');
                let mut ikey = f2;
                ikey.append("_items");
                let sb = generate_sidebar_for_module(
                    store,
                    buckets,
                    crate_name,
                    &b.key,
                    prefix.as_str(),
                    false,
                    crate_version,
                    true,
                    workspace_crates,
                    sidebar_root_link,
                );
                let ghost ev0 = entry_views(entries@);
                entries.push((ikey, sb));
                proof {
                    assert(entry_views(entries@) =~= ev0.push(
                        (spec_flat_key(spec_path_key(pv, k)) + "_items"@, spec_sidebar_for_module(
                            store,
                            all,
                            cn,
                            k,
                            pv,
                            false,
                            vv,
                            true,
                            wv,
                            lv,
                        )),
                    ));
                }
            }
        } else {
            let sb = generate_sidebar_for_module(
                store,
                buckets,
                crate_name,
                &b.key,
                prefix.as_str(),
                false,
                crate_version,
                leaf,
                workspace_crates,
                sidebar_root_link,
            );
            let ghost ev0 = entry_views(entries@);
            entries.push((pkey.clone(), sb));
            proof {
                assert(entry_views(entries@) =~= ev0.push(
                    (spec_path_key(pv, k), spec_sidebar_for_module(
                        store,
                        all,
                        cn,
                        k,
                        pv,
                        false,
                        vv,
                        leaf,
                        wv,
                        lv,
                    )),
                ));
            }
            let browse = has_child(buckets, &b.key) || leaf;
            if browse {
                let f1 = crate::strutil::str_replace_char(pkey.as_str(), '/', '_');
                let f2 = crate::strutil::str_replace_char(f1.as_str(), '.', '_');
                let mut ckey = f2;
                ckey.append("_children");
                let sc = generate_sidebar_for_module(
                    store,
                    buckets,
                    crate_name,
                    &b.key,
                    prefix.as_str(),
                    false,
                    crate_version,
                    true,
                    workspace_crates,
                    sidebar_root_link,
                );
                let ghost ev1 = entry_views(entries@);
                entries.push((ckey, sc));
                proof {
                    assert(entry_views(entries@) =~= ev1.push(
                        (
                            spec_flat_key(spec_path_key(pv, k)) + "_children"@,
                            spec_sidebar_for_module(
                                store,
                                all,
                                cn,
                                k,
                                pv,
                                false,
                                vv,
                                true,
                                wv,
                                lv,
                            ),
                        ),
                    ));
                }
            }
        }
        i = i + 1;
    }
    proof {
        assert(all.skip(all.len() as int).len() == 0);
        assert(spec_module_entries(store, all, all.skip(all.len() as int), cn, pv, vv, wv, lv)
            =~= Seq::<(Seq<char>, Seq<NodeView>)>::empty());
        assert(entry_views(entries@) =~= spec_all_sidebar_entries(store, all, cn, pv, vv, wv, lv));
    }
    crate::options::SidebarSet { entries }
}


/// Stable insertion of an entry into a list sorted by key.
pub open spec fn spec_insert_entry(
    x: (Seq<char>, Seq<NodeView>),
    s: Seq<(Seq<char>, Seq<NodeView>)>,
) -> Seq<(Seq<char>, Seq<NodeView>)>
    decreases s.len(),
{
    if s.len() == 0 {
        seq![x]
    } else if !lex_lt(x.0, s[0].0) {
        seq![s[0]] + spec_insert_entry(x, s.drop_first())
    } else {
        seq![x] + s
    }
}

/// The stable sort of a sidebar set by key.
pub open spec fn spec_sort_entries(s: Seq<(Seq<char>, Seq<NodeView>)>) -> Seq<
    (Seq<char>, Seq<NodeView>),
>
    decreases s.len(),
{
    if s.len() == 0 {
        Seq::empty()
    } else {
        spec_insert_entry(s.last(), spec_sort_entries(s.drop_last()))
    }
}

proof fn lemma_insert_entry_split(
    x: (Seq<char>, Seq<NodeView>),
    s: Seq<(Seq<char>, Seq<NodeView>)>,
    p: int,
)
    requires
        0 <= p <= s.len(),
        forall|j: int| 0 <= j < p ==> !lex_lt(x.0, (#[trigger] s[j]).0),
        p < s.len() ==> lex_lt(x.0, s[p].0),
    ensures
        spec_insert_entry(x, s) == s.insert(p, x),
    decreases p,
{
    if p == 0 {
        if s.len() == 0 {
            assert(spec_insert_entry(x, s) =~= s.insert(0, x));
        } else {
            assert(spec_insert_entry(x, s) =~= seq![x] + s);
            assert(s.insert(0, x) =~= seq![x] + s);
        }
    } else {
        assert(!lex_lt(x.0, s[0].0));
        lemma_insert_entry_split(x, s.drop_first(), p - 1);
        assert(spec_insert_entry(x, s) =~= seq![s[0]] + s.drop_first().insert(p - 1, x));
        assert(s.insert(p, x) =~= seq![s[0]] + s.drop_first().insert(p - 1, x));
    }
}

/// One rendered sidebar-set entry.
pub open spec fn spec_render_entry(e: (Seq<char>, Seq<NodeView>)) -> Seq<char> {
    "  '"@ + spec_flat_key(e.0) + "': [\n"@ + spec_render_items(e.1, spec_indent(2)) + "  ],\n"@
}

/// The rendered entries, in order.
pub open spec fn spec_render_entries(s: Seq<(Seq<char>, Seq<NodeView>)>) -> Seq<char>
    decreases s.len(),
{
    if s.len() == 0 {
        Seq::empty()
    } else {
        spec_render_entry(s[0]) + spec_render_entries(s.drop_first())
    }
}

/// The fixed leading text of the rendered sidebar module.
pub open spec fn spec_js_header() -> Seq<char> {
    "// This file is auto-generated by cargo-doc-md\n// Do not edit manually - this file will be regenerated\n\nimport type {SidebarsConfig} from '@docusaurus/plugin-content-docs';\n\n// Rust API documentation sidebars\n// Each module has its own sidebar for better navigation\n// Import this in your docusaurus.config.ts:\n// import { rustSidebars } from './sidebars-rust';\n//\n// Then configure in docs plugin:\n// docs: {\n//   sidebarPath: './sidebars.ts',\n//   async sidebarItemsGenerator({ defaultSidebarItemsGenerator, ...args }) {\n//     const items = await defaultSidebarItemsGenerator(args);\n//     const docPath = args.item.id;\n//     // Use module-specific sidebar if available\n//     for (const [path, sidebar] of Object.entries(rustSidebars)) {\n//       if (docPath.startsWith(path + '/')) {\n//         return sidebar;\n//       }\n//     }\n//     return items;\n//   },\n// }\n\nexport const rustSidebars: Record<string, any[]> = {\n"@
}

/// The trailing text: the object close, and the backward-compatible exports
/// over the first key when one exists.
pub open spec fn spec_js_footer(first: Option<Seq<char>>) -> Seq<char> {
    "};\n\n"@ + (match first {
        Some(k) =>
            "// Main API documentation sidebar (for backward compatibility)\nexport const rustApiDocumentation = rustSidebars['"@
            + spec_flat_key(k)
            + "'];\n\n// Or use as a single category:\nexport const rustApiCategory = {\n  type: 'category' as const,\n  label: 'API Documentation',\n  collapsed: false,\n  items: rustApiDocumentation,\n};\n"@,
        None => Seq::empty(),
    })
}

/// The full rendered sidebar module for a set of entries.
pub open spec fn spec_sidebars_js(s: Seq<(Seq<char>, Seq<NodeView>)>) -> Seq<char> {
    let sorted = spec_sort_entries(s);
    spec_js_header() + spec_render_entries(sorted) + spec_js_footer(
        if sorted.len() > 0 {
            Some(sorted[0].0)
        } else {
            None
        },
    )
}

/// A key flattened for use as an identifier.
fn flat_key_of(s: &str) -> (r: String)
    ensures
        r@ == spec_flat_key(s@),
{
    let f1 = crate::strutil::str_replace_char(s, '/', '_');
    crate::strutil::str_replace_char(f1.as_str(), '.', '_')
}

/// Render a sidebar set as a TypeScript module: a sorted record of every
/// navigation key, then the backward-compatible exports.
#[verifier::rlimit(100)]
pub fn sidebars_to_js(set: &crate::options::SidebarSet, _collapsed: bool) -> (r: String)
    ensures
        r@ == spec_sidebars_js(entry_views(set.entries@)),
{
    let ghost ev = entry_views(set.entries@);
    proof {
        assert(ev.len() == set.entries@.len());
    }
    // sort positions by key, stably
    let mut idxs: Vec<usize> = Vec::new();
    let mut i: usize = 0;
    proof {
        assert(idxs@.map_values(|j: usize| ev[j as int]) =~= spec_sort_entries(ev.take(0)));
    }
    while i < set.entries.len()
        invariant
            i <= set.entries@.len(),
            ev == entry_views(set.entries@),
            ev.len() == set.entries@.len(),
            forall|j: int| 0 <= j < idxs@.len() ==> (#[trigger] idxs@[j]) < i,
            idxs@.len() == i,
            idxs@.map_values(|j: usize| ev[j as int]) == spec_sort_entries(ev.take(i as int)),
        decreases set.entries@.len() - i,
    {
        let ghost mapped = idxs@.map_values(|j: usize| ev[j as int]);
        let x = &set.entries[i].0;
        proof {
            assert(ev[i as int].0 == set.entries@[i as int].0@);
        }
        let mut p: usize = 0;
        loop
            invariant
                p <= idxs@.len(),
                idxs@.len() == i,
                i < set.entries@.len(),
                ev == entry_views(set.entries@),
                ev.len() == set.entries@.len(),
                x@ == ev[i as int].0,
                forall|j: int| 0 <= j < idxs@.len() ==> (#[trigger] idxs@[j]) < i,
                mapped == idxs@.map_values(|j: usize| ev[j as int]),
                forall|j: int| 0 <= j < p ==> !lex_lt(x@, (#[trigger] mapped[j]).0),
            ensures
                p <= idxs@.len(),
                forall|j: int| 0 <= j < p ==> !lex_lt(x@, (#[trigger] mapped[j]).0),
                p < idxs@.len() ==> lex_lt(x@, mapped[p as int].0),
                idxs@.len() == i,
                mapped == idxs@.map_values(|j: usize| ev[j as int]),
            decreases idxs@.len() - p,
        {
            if p == idxs.len() {
                break;
            }
            let other = idxs[p];
            proof {
                assert(mapped[p as int] == ev[other as int]);
                assert(ev[other as int].0 == set.entries@[other as int].0@);
            }
            if crate::strutil::str_lt(x.as_str(), set.entries[other].0.as_str()) {
                break;
            }
            p = p + 1;
        }
        let ghost idx0 = idxs@;
        idxs.insert(p, i);
        proof {
            assert(idxs@ =~= idx0.insert(p as int, i));
            assert(idxs@.map_values(|j: usize| ev[j as int]) =~= mapped.insert(
                p as int,
                ev[i as int],
            ));
            lemma_insert_entry_split(ev[i as int], mapped, p as int);
            assert(ev.take(i + 1).drop_last() =~= ev.take(i as int));
            assert(ev.take(i + 1).last() == ev[i as int]);
        }
        i = i + 1;
    }
    proof {
        assert(ev.take(ev.len() as int) =~= ev);
    }
    let ghost sorted = spec_sort_entries(ev);
    // render
    let mut out = String::from_str(
        "// This file is auto-generated by cargo-doc-md\n// Do not edit manually - this file will be regenerated\n\nimport type {SidebarsConfig} from '@docusaurus/plugin-content-docs';\n\n// Rust API documentation sidebars\n// Each module has its own sidebar for better navigation\n// Import this in your docusaurus.config.ts:\n// import { rustSidebars } from './sidebars-rust';\n//\n// Then configure in docs plugin:\n// docs: {\n//   sidebarPath: './sidebars.ts',\n//   async sidebarItemsGenerator({ defaultSidebarItemsGenerator, ...args }) {\n//     const items = await defaultSidebarItemsGenerator(args);\n//     const docPath = args.item.id;\n//     // Use module-specific sidebar if available\n//     for (const [path, sidebar] of Object.entries(rustSidebars)) {\n//       if (docPath.startsWith(path + '/')) {\n//         return sidebar;\n//       }\n//     }\n//     return items;\n//   },\n// }\n\nexport const rustSidebars: Record<string, any[]> = {\n",
    );
    let mut q: usize = 0;
    while q < idxs.len()
        invariant
            q <= idxs@.len(),
            ev == entry_views(set.entries@),
            ev.len() == set.entries@.len(),
            forall|j: int| 0 <= j < idxs@.len() ==> (#[trigger] idxs@[j]) < set.entries@.len(),
            sorted == idxs@.map_values(|j: usize| ev[j as int]),
            out@ == spec_js_header() + spec_render_entries(sorted.take(q as int)),
        decreases idxs@.len() - q,
    {
        let idx = idxs[q];
        proof {
            assert(sorted[q as int] == ev[idx as int]);
            assert(ev[idx as int].0 == set.entries@[idx as int].0@);
            assert(ev[idx as int].1 == nodes_view(set.entries@[idx as int].1@));
        }
        let fk = flat_key_of(set.entries[idx].0.as_str());
        out.append("  '");
        out.append(fk.as_str());
        out.append("': [\n");
        proof {
            reveal_strlit("  ");
            reveal_strlit("    ");
            assert(spec_indent(0) =~= Seq::<char>::empty());
            assert(spec_indent(1) =~= "  "@ + spec_indent(0));
            assert(spec_indent(2) =~= "  "@ + spec_indent(1));
            assert(spec_indent(2) =~= "    "@);
        }
        let body = render_items(&set.entries[idx].1, "    ");
        out.append(body.as_str());
        out.append("  ],\n");
        proof {
            assert(spec_render_entries(sorted.take(q + 1)) =~= spec_render_entries(
                sorted.take(q as int),
            ) + spec_render_entry(sorted[q as int])) by {
                lemma_render_entries_push(sorted.take(q as int), sorted[q as int]);
                assert(sorted.take(q + 1) =~= sorted.take(q as int).push(sorted[q as int]));
            }
            assert(out@ =~= spec_js_header() + spec_render_entries(sorted.take(q + 1)));
        }
        q = q + 1;
    }
    proof {
        assert(sorted.take(sorted.len() as int) =~= sorted);
    }
    out.append("};\n\n");
    if idxs.len() > 0 {
        let first = idxs[0];
        proof {
            assert(sorted[0] == ev[first as int]);
            assert(ev[first as int].0 == set.entries@[first as int].0@);
        }
        let fk = flat_key_of(set.entries[first].0.as_str());
        out.append(
            "// Main API documentation sidebar (for backward compatibility)\nexport const rustApiDocumentation = rustSidebars['",
        );
        out.append(fk.as_str());
        out.append(
            "'];\n\n// Or use as a single category:\nexport const rustApiCategory = {\n  type: 'category' as const,\n  label: 'API Documentation',\n  collapsed: false,\n  items: rustApiDocumentation,\n};\n",
        );
    }
    proof {
        assert(out@ =~= spec_sidebars_js(ev));
    }
    out
}

proof fn lemma_render_entries_push(s: Seq<(Seq<char>, Seq<NodeView>)>, x: (Seq<char>, Seq<NodeView>))
    ensures
        spec_render_entries(s.push(x)) == spec_render_entries(s) + spec_render_entry(x),
    decreases s.len(),
{
    if s.len() == 0 {
        assert(s.push(x)[0] == x);
        assert(s.push(x).drop_first() =~= Seq::<(Seq<char>, Seq<NodeView>)>::empty());
        assert(spec_render_entries(Seq::<(Seq<char>, Seq<NodeView>)>::empty()) =~= Seq::<
            char,
        >::empty());
        assert(spec_render_entries(s.push(x)) =~= spec_render_entry(x) + Seq::<char>::empty());
        assert(spec_render_entries(s) + spec_render_entry(x) =~= spec_render_entry(x));
    } else {
        lemma_render_entries_push(s.drop_first(), x);
        assert(s.push(x)[0] == s[0]);
        assert(s.push(x).drop_first() =~= s.drop_first().push(x));
        assert(spec_render_entries(s.push(x)) =~= spec_render_entry(s[0]) + (spec_render_entries(
            s.drop_first(),
        ) + spec_render_entry(x)));
        assert(spec_render_entries(s) + spec_render_entry(x) =~= spec_render_entry(s[0]) + (
        spec_render_entries(s.drop_first()) + spec_render_entry(x)));
    }
}

/// Generate the rendered sidebar configuration for one conversion run.
pub fn generate_all_sidebars(
    store: &ItemStore,
    buckets: &ModuleBuckets,
    crate_name: &str,
    base_path: &str,
    crate_version: &Option<String>,
    sidebarconfig_collapsed: bool,
    workspace_crates: &Vec<String>,
    sidebar_root_link: &Option<String>,
) -> (r: String)
    ensures
        r@ == spec_sidebars_js(
            spec_all_sidebar_entries(
                store,
                buckets.buckets@,
                crate_name@,
                spec_sidebar_prefix(base_path@),
                opt_view(*crate_version),
                seq_views(workspace_crates@),
                opt_view(*sidebar_root_link),
            ),
        ),
{
    let set = build_all_sidebars(
        store,
        buckets,
        crate_name,
        base_path,
        crate_version,
        workspace_crates,
        sidebar_root_link,
    );
    sidebars_to_js(&set, sidebarconfig_collapsed)
}

} // verus!
