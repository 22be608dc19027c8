//! The cross-reference link resolver: decides whether a referenced item is
//! local, a workspace sibling, or external, and constructs its destination
//! path or URL deterministically from the reference tuple alone.

use crate::store::{
    ItemKind, ItemStore, spec_assoc, spec_item_prefix,
};
use crate::strutil::{
    join_strings, matches_at, seq_views, spec_join, spec_replace_char, str_eq, str_replace_char,
};
use vstd::prelude::*;

verus! {

/// Read-only configuration threaded through one conversion run.
pub struct LinkContext {
    /// Base routing prefix for internal links; possibly empty.
    pub base_path: String,
    /// Names of the sibling projects converted in the same build.
    pub workspace_crates: Vec<String>,
    /// Path segments treated as implementation detail and dropped from
    /// external URLs. Overridable; see `default_internal_segments`.
    pub internal_segments: Vec<String>,
}

/// The segments dropped from external URLs by default.
pub fn default_internal_segments() -> (r: Vec<String>)
    ensures
        seq_views(r@) == seq![
            "bounded"@,
            "unbounded"@,
            "inner"@,
            "private"@,
            "imp"@,
        ],
{
    let mut v: Vec<String> = Vec::new();
    v.push(String::from_str("bounded"));
    v.push(String::from_str("unbounded"));
    v.push(String::from_str("inner"));
    v.push(String::from_str("private"));
    v.push(String::from_str("imp"));
    proof {
        assert(seq_views(v@) =~= seq!["bounded"@, "unbounded"@, "inner"@, "private"@, "imp"@]);
    }
    v
}

/// A name with every hyphen replaced by an underscore: the normal form used
/// for sibling-project membership.
pub open spec fn norm_name(s: Seq<char>) -> Seq<char> {
    spec_replace_char(s, '-', '_')
}

/// Whether a library name, after normalization, is one of the registered
/// sibling projects, themselves normalized.
pub open spec fn spec_is_sibling(crates: Seq<Seq<char>>, name: Seq<char>) -> bool {
    exists|i: int| 0 <= i < crates.len() && norm_name(#[trigger] crates[i]) == norm_name(name)
}

/// Law: sibling normalization. A name registered with hyphens matches a
/// reference reported with underscores, and the other way round: membership
/// depends only on the normal form of the name.
pub proof fn lemma_sibling_normalization(crates: Seq<Seq<char>>, a: Seq<char>, b: Seq<char>)
    requires
        norm_name(a) == norm_name(b),
    ensures
        spec_is_sibling(crates, a) == spec_is_sibling(crates, b),
{
}

/// Membership test against the sibling set.
pub fn is_sibling(crates: &Vec<String>, name: &str) -> (r: bool)
    ensures
        r == spec_is_sibling(seq_views(crates@), name@),
{
    let normed = str_replace_char(name, '-', '_');
    let mut i: usize = 0;
    while i < crates.len()
        invariant
            i <= crates@.len(),
            normed@ == norm_name(name@),
            forall|j: int| 0 <= j < i ==> norm_name(seq_views(crates@)[j]) != norm_name(name@),
        decreases crates@.len() - i,
    {
        let c = str_replace_char(crates[i].as_str(), '-', '_');
        if str_eq(c.as_str(), normed.as_str()) {
            proof {
                assert(norm_name(seq_views(crates@)[i as int]) == norm_name(name@));
            }
            return true;
        }
        i = i + 1;
    }
    false
}

/// Path with every placeholder segment replaced by the fallback name.
pub open spec fn subst_crate_token(path: Seq<Seq<char>>) -> Seq<Seq<char>> {
    path.map_values(|s: Seq<char>| if s == "$crate"@ { "unknown"@ } else { s })
}

/// The path used for resolution: the authoritative path table's entry when
/// one exists, else the caller-supplied path with placeholders substituted.
pub open spec fn spec_effective_path(store: &ItemStore, path: Seq<Seq<char>>, id: u64) -> Seq<
    Seq<char>,
> {
    match spec_assoc(store.paths@, id) {
        Some(pe) => seq_views(pe.segments@),
        None => subst_crate_token(path),
    }
}

/// Whether the referenced item belongs to the local project.
pub open spec fn spec_is_local(store: &ItemStore, id: u64) -> bool {
    match spec_assoc(store.paths@, id) {
        Some(pe) => pe.origin == 0,
        None => spec_assoc(store.items@, id) is Some,
    }
}

/// Kind prefix from the path table, defaulting to `struct.`.
pub open spec fn spec_kind_prefix_or_default(k: ItemKind) -> Seq<char> {
    match k {
        ItemKind::Struct => "struct."@,
        ItemKind::Enum => "enum."@,
        ItemKind::Trait => "trait."@,
        ItemKind::Function => "fn."@,
        ItemKind::TypeAlias => "type."@,
        ItemKind::Constant => "constant."@,
        _ => "struct."@,
    }
}

/// Kind tag used in external URLs, defaulting to `struct`.
pub open spec fn spec_kind_tag(k: ItemKind) -> Seq<char> {
    match k {
        ItemKind::Struct => "struct"@,
        ItemKind::Enum => "enum"@,
        ItemKind::Trait => "trait"@,
        ItemKind::Function => "fn"@,
        ItemKind::TypeAlias => "type"@,
        ItemKind::Constant => "constant"@,
        _ => "struct"@,
    }
}

/// Path segments with the internal-implementation segments removed.
pub open spec fn spec_filter_deny(segs: Seq<Seq<char>>, deny: Seq<Seq<char>>) -> Seq<Seq<char>>
    decreases segs.len(),
{
    if segs.len() == 0 {
        segs
    } else {
        let rest = spec_filter_deny(segs.drop_first(), deny);
        if deny.contains(segs[0]) {
            rest
        } else {
            seq![segs[0]] + rest
        }
    }
}

/// An internal destination: base prefix, project, optional module path, then
/// the kind prefix and the item name.
pub open spec fn spec_internal_dest(
    base: Seq<char>,
    project: Seq<char>,
    mod_path: Seq<char>,
    prefix: Seq<char>,
    name: Seq<char>,
) -> Seq<char> {
    if mod_path.len() == 0 {
        base + "/"@ + project + "/"@ + prefix + name
    } else {
        base + "/"@ + project + "/"@ + mod_path + "/"@ + prefix + name
    }
}

/// A documentation URL for the origin library's standard libraries.
pub open spec fn spec_std_dest(
    lib: Seq<char>,
    mod_path: Seq<char>,
    tag: Seq<char>,
    name: Seq<char>,
) -> Seq<char> {
    "https://doc.rust-lang.org/"@ + lib + "/"@ + mod_path + "/"@ + tag + "."@ + name + ".html"@
}

/// A documentation-hosting URL for a third-party library.
pub open spec fn spec_docsrs_dest(
    lib: Seq<char>,
    mod_path: Seq<char>,
    tag: Seq<char>,
    name: Seq<char>,
) -> Seq<char> {
    if mod_path.len() == 0 {
        "https://docs.rs/"@ + lib + "/latest/"@ + lib + "/"@ + tag + "."@ + name + ".html"@
    } else {
        "https://docs.rs/"@ + lib + "/latest/"@ + lib + "/"@ + mod_path + "/"@ + tag + "."@
            + name + ".html"@
    }
}

/// The local module path for an item: the middle of its table path when it
/// has more than two segments, else the source-location hint, else empty
/// (the project root).
pub open spec fn spec_local_mod_path(store: &ItemStore, id: u64) -> Seq<char> {
    match spec_assoc(store.paths@, id) {
        Some(pe) => if pe.segments@.len() > 2 {
            spec_join(seq_views(pe.segments@).drop_first().drop_last(), "/"@)
        } else {
            Seq::empty()
        },
        None => match spec_assoc(store.items@, id) {
            Some(it) => match it.source_hint {
                Some(h) => spec_join(seq_views(h@), "/"@),
                None => Seq::empty(),
            },
            None => Seq::empty(),
        },
    }
}

/// The destination for a local item.
pub open spec fn spec_local_dest(
    store: &ItemStore,
    ctx: &LinkContext,
    ep: Seq<Seq<char>>,
    id: u64,
) -> Seq<char> {
    let prefix = match spec_assoc(store.items@, id) {
        Some(it) => spec_item_prefix(it.kind),
        None => Seq::empty(),
    };
    spec_internal_dest(
        ctx.base_path@,
        ep[0],
        spec_local_mod_path(store, id),
        prefix,
        ep.last(),
    )
}

/// The curated redirects for well-known standard-library aliases.
pub open spec fn spec_known_result_url() -> Seq<char> {
    "https://doc.rust-lang.org/std/result/enum.Result.html"@
}

pub open spec fn spec_known_option_url() -> Seq<char> {
    "https://doc.rust-lang.org/std/option/enum.Option.html"@
}

/// Kind tag guessed from naming conventions alone.
pub open spec fn spec_guessed_tag(name: Seq<char>) -> Seq<char> {
    if "Error"@.is_suffix_of(name) || name == "Option"@ || name == "Result"@ {
        "enum"@
    } else {
        "struct"@
    }
}

/// The destination for a reference into the origin library's standard
/// libraries.
pub open spec fn spec_std_link(store: &ItemStore, ctx: &LinkContext, ep: Seq<Seq<char>>) -> Seq<
    char,
> {
    let lib = ep[0];
    let name = ep.last();
    if (lib == "std"@ || lib == "core"@) && ep =~= seq![lib, "fmt"@, "Result"@] {
        spec_known_result_url()
    } else if lib == "core"@ && ep =~= seq![lib, "result"@, "Result"@] {
        spec_known_result_url()
    } else if lib == "core"@ && ep =~= seq![lib, "option"@, "Option"@] {
        spec_known_option_url()
    } else {
        let mp = spec_join(
            spec_filter_deny(
                ep.subrange(1, ep.len() - 1),
                seq_views(ctx.internal_segments@),
            ),
            "/"@,
        );
        spec_std_dest(lib, mp, spec_guessed_tag(name), name)
    }
}

/// The real library name of an external reference: from the origin registry
/// when the path table knows the origin, else the first path segment.
pub open spec fn spec_real_crate_name(store: &ItemStore, ep: Seq<Seq<char>>, id: u64) -> Seq<
    char,
> {
    match spec_assoc(store.paths@, id) {
        Some(pe) => if pe.origin != 0 {
            match spec_assoc(store.external_crates@, pe.origin) {
                Some(n) => n@,
                None => ep[0],
            }
        } else {
            ep[0]
        },
        None => ep[0],
    }
}

/// The destination for an external reference with at least two segments.
pub open spec fn spec_external_link(
    store: &ItemStore,
    ctx: &LinkContext,
    ep: Seq<Seq<char>>,
    id: u64,
) -> Seq<char> {
    let lib = ep[0];
    let name = ep.last();
    if lib == "std"@ || lib == "core"@ || lib == "alloc"@ {
        spec_std_link(store, ctx, ep)
    } else {
        let rlib = spec_real_crate_name(store, ep, id);
        let mp = spec_join(
            spec_filter_deny(
                ep.subrange(1, ep.len() - 1),
                seq_views(ctx.internal_segments@),
            ),
            "/"@,
        );
        if spec_is_sibling(seq_views(ctx.workspace_crates@), rlib) {
            let prefix = match spec_assoc(store.paths@, id) {
                Some(pe) => spec_kind_prefix_or_default(pe.kind),
                None => "struct."@,
            };
            spec_internal_dest(ctx.base_path@, rlib, mp, prefix, name)
        } else {
            let tag = match spec_assoc(store.paths@, id) {
                Some(pe) => spec_kind_tag(pe.kind),
                None => "struct"@,
            };
            spec_docsrs_dest(rlib, mp, tag, name)
        }
    }
}

/// The static table of extremely common standard-library names, used as the
/// last resort for a bare single-segment reference.
pub open spec fn spec_common_std(name: Seq<char>) -> Option<Seq<char>> {
    if name == "String"@ {
        Some("https://doc.rust-lang.org/std/string/struct.String.html"@)
    } else if name == "Vec"@ {
        Some("https://doc.rust-lang.org/std/vec/struct.Vec.html"@)
    } else if name == "Option"@ {
        Some(spec_known_option_url())
    } else if name == "Result"@ {
        Some(spec_known_result_url())
    } else if name == "Box"@ {
        Some("https://doc.rust-lang.org/std/boxed/struct.Box.html"@)
    } else if name == "Rc"@ {
        Some("https://doc.rust-lang.org/std/rc/struct.Rc.html"@)
    } else if name == "Arc"@ {
        Some("https://doc.rust-lang.org/std/sync/struct.Arc.html"@)
    } else if name == "HashMap"@ {
        Some("https://doc.rust-lang.org/std/collections/struct.HashMap.html"@)
    } else if name == "HashSet"@ {
        Some("https://doc.rust-lang.org/std/collections/struct.HashSet.html"@)
    } else if name == "BTreeMap"@ {
        Some("https://doc.rust-lang.org/std/collections/struct.BTreeMap.html"@)
    } else if name == "BTreeSet"@ {
        Some("https://doc.rust-lang.org/std/collections/struct.BTreeSet.html"@)
    } else if name == "Mutex"@ {
        Some("https://doc.rust-lang.org/std/sync/struct.Mutex.html"@)
    } else if name == "RwLock"@ {
        Some("https://doc.rust-lang.org/std/sync/struct.RwLock.html"@)
    } else if name == "Cell"@ {
        Some("https://doc.rust-lang.org/std/cell/struct.Cell.html"@)
    } else if name == "RefCell"@ {
        Some("https://doc.rust-lang.org/std/cell/struct.RefCell.html"@)
    } else if name == "Path"@ {
        Some("https://doc.rust-lang.org/std/path/struct.Path.html"@)
    } else if name == "PathBuf"@ {
        Some("https://doc.rust-lang.org/std/path/struct.PathBuf.html"@)
    } else {
        None
    }
}

/// The full decision: local first, then the external classes, then the
/// single-segment fallback, all bounded by the recursion fuel.
pub open spec fn spec_resolve_link(
    store: &ItemStore,
    ctx: &LinkContext,
    path: Seq<Seq<char>>,
    id: u64,
    fuel: nat,
) -> Option<Seq<char>>
    decreases fuel,
{
    if fuel == 0 {
        None
    } else {
        let ep = spec_effective_path(store, path, id);
        if ep.len() == 0 {
            None
        } else if spec_is_local(store, id) && spec_assoc(store.items@, id) is Some {
            Some(spec_local_dest(store, ctx, ep, id))
        } else if ep.len() >= 2 {
            Some(spec_external_link(store, ctx, ep, id))
        } else {
            match spec_assoc(store.paths@, id) {
                Some(pe) => if seq_views(pe.segments@) != ep {
                    spec_resolve_link(store, ctx, seq_views(pe.segments@), id, (fuel - 1) as nat)
                } else {
                    spec_common_std(ep[0])
                },
                None => spec_common_std(ep[0]),
            }
        }
    }
}

/// Suffix test for the `Error` naming convention.
fn name_ends_error(name: &str) -> (r: bool)
    ensures
        r == "Error"@.is_suffix_of(name@),
{
    proof {
        reveal_strlit("Error");
        assert("Error"@.len() == 5);
    }
    let ln = name.unicode_len();
    if ln < 5 {
        return false;
    }
    let m = crate::strutil::str_matches_at(name, "Error", ln - 5);
    proof {
        assert(matches_at(name@, "Error"@, ln - 5) == "Error"@.is_suffix_of(name@));
    }
    m
}

/// Membership test against the internal-segment denylist.
fn in_deny(deny: &Vec<String>, s: &str) -> (r: bool)
    ensures
        r == seq_views(deny@).contains(s@),
{
    let mut i: usize = 0;
    while i < deny.len()
        invariant
            i <= deny@.len(),
            forall|j: int| 0 <= j < i ==> seq_views(deny@)[j] != s@,
        decreases deny@.len() - i,
    {
        if str_eq(deny[i].as_str(), s) {
            proof {
                assert(seq_views(deny@)[i as int] == s@);
            }
            return true;
        }
        i = i + 1;
    }
    proof {
        if seq_views(deny@).contains(s@) {
            let j = choose|j: int| 0 <= j < seq_views(deny@).len() && seq_views(deny@)[j] == s@;
            assert(seq_views(deny@)[j] == s@);
        }
    }
    false
}

/// The middle of an effective path, with denylisted segments removed.
fn filter_middle(ep: &Vec<String>, deny: &Vec<String>) -> (r: Vec<String>)
    requires
        ep@.len() >= 2,
    ensures
        seq_views(r@) == spec_filter_deny(
            seq_views(ep@).subrange(1, ep@.len() - 1),
            seq_views(deny@),
        ),
{
    let ghost t = seq_views(ep@).subrange(1, ep@.len() - 1);
    let ghost dv = seq_views(deny@);
    let mut r: Vec<String> = Vec::new();
    let mut i: usize = 1;
    proof {
        assert(t.skip(0) =~= t);
        assert(seq_views(r@) =~= Seq::<Seq<char>>::empty());
        assert(spec_filter_deny(t, dv) =~= seq_views(r@) + spec_filter_deny(t.skip(0), dv));
    }
    while i < ep.len() - 1
        invariant
            ep@.len() >= 2,
            1 <= i <= ep@.len(),
            i <= ep@.len() - 1,
            t == seq_views(ep@).subrange(1, ep@.len() - 1),
            dv == seq_views(deny@),
            spec_filter_deny(t, dv) =~= seq_views(r@) + spec_filter_deny(t.skip(i - 1), dv),
        decreases ep@.len() - i,
    {
        let ghost pre = spec_filter_deny(t.skip(i - 1), dv);
        proof {
            assert(t.skip(i - 1)[0] == t[i - 1]);
            assert(t[i - 1] == ep@[i as int]@);
            assert(t.skip(i - 1).drop_first() =~= t.skip(i as int));
        }
        if in_deny(deny, ep[i].as_str()) {
            proof {
                assert(pre =~= spec_filter_deny(t.skip(i as int), dv));
            }
        } else {
            proof {
                assert(pre =~= seq![t[i - 1]] + spec_filter_deny(t.skip(i as int), dv));
                assert(seq_views(r@.push(ep@[i as int])) =~= seq_views(r@) + seq![ep@[i as int]@]);
            }
            r.push(ep[i].clone());
        }
        i = i + 1;
    }
    proof {
        assert(t.skip(t.len() as int).len() == 0);
        assert(spec_filter_deny(t.skip(i - 1), dv) =~= Seq::<Seq<char>>::empty());
        assert(seq_views(r@) =~= spec_filter_deny(t, dv));
    }
    r
}

/// The local module path for an item, as a joined string.
fn local_mod_path(store: &ItemStore, id: u64) -> (r: String)
    ensures
        r@ == spec_local_mod_path(store, id),
{
    match store.find_path(id) {
        Some(pe) => {
            if pe.segments.len() > 2 {
                let mut mid = crate::strutil::clone_segments(&pe.segments);
                let ghost orig = seq_views(mid@);
                mid.truncate(mid.len() - 1);
                mid.remove(0);
                proof {
                    assert(seq_views(mid@) =~= seq_views(pe.segments@).drop_first().drop_last());
                }
                join_strings(&mid, "/")
            } else {
                String::new()
            }
        },
        None => {
            match store.find_item(id) {
                Some(it) => {
                    match &it.source_hint {
                        Some(h) => join_strings(h, "/"),
                        None => String::new(),
                    }
                },
                None => String::new(),
            }
        },
    }
}

/// The caller-supplied path with placeholder segments substituted.
fn subst_crate_token_exec(path: &Vec<String>) -> (r: Vec<String>)
    ensures
        seq_views(r@) == subst_crate_token(seq_views(path@)),
{
    let mut r: Vec<String> = Vec::new();
    let mut i: usize = 0;
    while i < path.len()
        invariant
            i <= path@.len(),
            r@.len() == i,
            forall|j: int|
                0 <= j < i ==> seq_views(r@)[j] == (if seq_views(path@)[j] == "$crate"@ {
                    "unknown"@
                } else {
                    seq_views(path@)[j]
                }),
        decreases path@.len() - i,
    {
        if str_eq(path[i].as_str(), "$crate") {
            r.push(String::from_str("unknown"));
        } else {
            r.push(path[i].clone());
        }
        i = i + 1;
    }
    proof {
        assert(seq_views(r@) =~~= subst_crate_token(seq_views(path@)));
    }
    r
}

/// The last-resort table for extremely common standard-library names.
fn common_std_link(name: &str) -> (r: Option<String>)
    ensures
        match r {
            Some(s) => spec_common_std(name@) == Some(s@),
            None => spec_common_std(name@) is None,
        },
{
    if str_eq(name, "String") {
        Some(String::from_str("https://doc.rust-lang.org/std/string/struct.String.html"))
    } else if str_eq(name, "Vec") {
        Some(String::from_str("https://doc.rust-lang.org/std/vec/struct.Vec.html"))
    } else if str_eq(name, "Option") {
        Some(String::from_str("https://doc.rust-lang.org/std/option/enum.Option.html"))
    } else if str_eq(name, "Result") {
        Some(String::from_str("https://doc.rust-lang.org/std/result/enum.Result.html"))
    } else if str_eq(name, "Box") {
        Some(String::from_str("https://doc.rust-lang.org/std/boxed/struct.Box.html"))
    } else if str_eq(name, "Rc") {
        Some(String::from_str("https://doc.rust-lang.org/std/rc/struct.Rc.html"))
    } else if str_eq(name, "Arc") {
        Some(String::from_str("https://doc.rust-lang.org/std/sync/struct.Arc.html"))
    } else if str_eq(name, "HashMap") {
        Some(String::from_str("https://doc.rust-lang.org/std/collections/struct.HashMap.html"))
    } else if str_eq(name, "HashSet") {
        Some(String::from_str("https://doc.rust-lang.org/std/collections/struct.HashSet.html"))
    } else if str_eq(name, "BTreeMap") {
        Some(String::from_str("https://doc.rust-lang.org/std/collections/struct.BTreeMap.html"))
    } else if str_eq(name, "BTreeSet") {
        Some(String::from_str("https://doc.rust-lang.org/std/collections/struct.BTreeSet.html"))
    } else if str_eq(name, "Mutex") {
        Some(String::from_str("https://doc.rust-lang.org/std/sync/struct.Mutex.html"))
    } else if str_eq(name, "RwLock") {
        Some(String::from_str("https://doc.rust-lang.org/std/sync/struct.RwLock.html"))
    } else if str_eq(name, "Cell") {
        Some(String::from_str("https://doc.rust-lang.org/std/cell/struct.Cell.html"))
    } else if str_eq(name, "RefCell") {
        Some(String::from_str("https://doc.rust-lang.org/std/cell/struct.RefCell.html"))
    } else if str_eq(name, "Path") {
        Some(String::from_str("https://doc.rust-lang.org/std/path/struct.Path.html"))
    } else if str_eq(name, "PathBuf") {
        Some(String::from_str("https://doc.rust-lang.org/std/path/struct.PathBuf.html"))
    } else {
        None
    }
}

/// Kind prefix with the `struct.` default, executable form.
fn kind_prefix_or_default(k: ItemKind) -> (r: &'static str)
    ensures
        r@ == spec_kind_prefix_or_default(k),
{
    match k {
        ItemKind::Struct => "struct.",
        ItemKind::Enum => "enum.",
        ItemKind::Trait => "trait.",
        ItemKind::Function => "fn.",
        ItemKind::TypeAlias => "type.",
        ItemKind::Constant => "constant.",
        _ => "struct.",
    }
}

/// Kind tag with the `struct` default, executable form.
fn kind_tag(k: ItemKind) -> (r: &'static str)
    ensures
        r@ == spec_kind_tag(k),
{
    match k {
        ItemKind::Struct => "struct",
        ItemKind::Enum => "enum",
        ItemKind::Trait => "trait",
        ItemKind::Function => "fn",
        ItemKind::TypeAlias => "type",
        ItemKind::Constant => "constant",
        _ => "struct",
    }
}

/// Resolve one reference, with the given fuel.
fn generate_type_link_depth(
    store: &ItemStore,
    ctx: &LinkContext,
    path: &Vec<String>,
    id: u64,
    fuel: u64,
) -> (r: Option<String>)
    ensures
        match r {
            Some(s) => spec_resolve_link(store, ctx, seq_views(path@), id, fuel as nat) == Some(
                s@,
            ),
            None => spec_resolve_link(store, ctx, seq_views(path@), id, fuel as nat) is None,
        },
    decreases fuel,
{
    if fuel == 0 {
        return None;
    }
    let ep: Vec<String> = match store.find_path(id) {
        Some(pe) => crate::strutil::clone_segments(&pe.segments),
        None => subst_crate_token_exec(path),
    };
    let ghost epv = seq_views(ep@);
    proof {
        assert(epv == spec_effective_path(store, seq_views(path@), id));
    }
    if ep.len() == 0 {
        return None;
    }
    let is_loc = match store.find_path(id) {
        Some(pe) => pe.origin == 0,
        None => match store.find_item(id) {
            Some(_) => true,
            None => false,
        },
    };
    proof {
        assert(is_loc == spec_is_local(store, id));
    }
    if is_loc {
        match store.find_item(id) {
            Some(it) => {
                let prefix = crate::store::get_item_prefix(it);
                let mp = local_mod_path(store, id);
                let mut out = String::new();
                out.append(ctx.base_path.as_str());
                out.append("/");
                out.append(ep[0].as_str());
                out.append("/");
                if !mp.as_str().is_empty() {
                    out.append(mp.as_str());
                    out.append("/");
                }
                out.append(prefix);
                out.append(ep[ep.len() - 1].as_str());
                proof {
                    assert(epv.last() == ep@[ep@.len() - 1]@);
                    assert(out@ =~= spec_local_dest(store, ctx, epv, id));
                }
                return Some(out);
            },
            None => {},
        }
    }
    if ep.len() >= 2 {
        let is_std = str_eq(ep[0].as_str(), "std") || str_eq(ep[0].as_str(), "core") || str_eq(
            ep[0].as_str(),
            "alloc",
        );
        if is_std {
            let fmt_result = ep.len() == 3 && (str_eq(ep[0].as_str(), "std") || str_eq(
                ep[0].as_str(),
                "core",
            )) && str_eq(ep[1].as_str(), "fmt") && str_eq(ep[2].as_str(), "Result");
            if fmt_result {
                proof {
                    assert(epv =~= seq![epv[0], "fmt"@, "Result"@]);
                }
                return Some(
                    String::from_str("https://doc.rust-lang.org/std/result/enum.Result.html"),
                );
            }
            let core_result = ep.len() == 3 && str_eq(ep[0].as_str(), "core") && str_eq(
                ep[1].as_str(),
                "result",
            ) && str_eq(ep[2].as_str(), "Result");
            if core_result {
                proof {
                    assert(epv =~= seq![epv[0], "result"@, "Result"@]);
                }
                return Some(
                    String::from_str("https://doc.rust-lang.org/std/result/enum.Result.html"),
                );
            }
            let core_option = ep.len() == 3 && str_eq(ep[0].as_str(), "core") && str_eq(
                ep[1].as_str(),
                "option",
            ) && str_eq(ep[2].as_str(), "Option");
            if core_option {
                proof {
                    assert(epv =~= seq![epv[0], "option"@, "Option"@]);
                }
                return Some(
                    String::from_str("https://doc.rust-lang.org/std/option/enum.Option.html"),
                );
            }
            proof {
                if epv =~= seq![epv[0], "fmt"@, "Result"@] {
                    assert(epv.len() == 3 && epv[1] == "fmt"@ && epv[2] == "Result"@);
                }
                if epv =~= seq![epv[0], "result"@, "Result"@] {
                    assert(epv.len() == 3 && epv[1] == "result"@ && epv[2] == "Result"@);
                }
                if epv =~= seq![epv[0], "option"@, "Option"@] {
                    assert(epv.len() == 3 && epv[1] == "option"@ && epv[2] == "Option"@);
                }
            }
            let mid = filter_middle(&ep, &ctx.internal_segments);
            let mp = join_strings(&mid, "/");
            let name = ep[ep.len() - 1].as_str();
            let tag: &'static str = if name_ends_error(name) || str_eq(name, "Option") || str_eq(
                name,
                "Result",
            ) {
                "enum"
            } else {
                "struct"
            };
            let mut out = String::from_str("https://doc.rust-lang.org/");
            out.append(ep[0].as_str());
            out.append("/");
            out.append(mp.as_str());
            out.append("/");
            out.append(tag);
            out.append(".");
            out.append(name);
            out.append(".html");
            proof {
                assert(epv.last() == ep@[ep@.len() - 1]@);
                assert(tag@ == spec_guessed_tag(epv.last()));
                assert(out@ =~= spec_std_link(store, ctx, epv));
                assert(spec_external_link(store, ctx, epv, id) == spec_std_link(store, ctx, epv));
            }
            return Some(out);
        }
        let rlib: String = match store.find_path(id) {
            Some(pe) => {
                if pe.origin != 0 {
                    match store.find_ext_crate(pe.origin) {
                        Some(n) => n.clone(),
                        None => ep[0].clone(),
                    }
                } else {
                    ep[0].clone()
                }
            },
            None => ep[0].clone(),
        };
        proof {
            assert(rlib@ == spec_real_crate_name(store, epv, id));
        }
        let mid = filter_middle(&ep, &ctx.internal_segments);
        let mp = join_strings(&mid, "/");
        let name = ep[ep.len() - 1].as_str();
        proof {
            assert(epv.last() == ep@[ep@.len() - 1]@);
        }
        if is_sibling(&ctx.workspace_crates, rlib.as_str()) {
            let prefix: &'static str = match store.find_path(id) {
                Some(pe) => kind_prefix_or_default(pe.kind),
                None => "struct.",
            };
            let mut out = String::new();
            out.append(ctx.base_path.as_str());
            out.append("/");
            out.append(rlib.as_str());
            out.append("/");
            if !mp.as_str().is_empty() {
                out.append(mp.as_str());
                out.append("/");
            }
            out.append(prefix);
            out.append(name);
            proof {
                assert(out@ =~= spec_external_link(store, ctx, epv, id));
            }
            return Some(out);
        } else {
            let tag: &'static str = match store.find_path(id) {
                Some(pe) => kind_tag(pe.kind),
                None => "struct",
            };
            let mut out = String::from_str("https://docs.rs/");
            out.append(rlib.as_str());
            out.append("/latest/");
            out.append(rlib.as_str());
            out.append("/");
            if !mp.as_str().is_empty() {
                out.append(mp.as_str());
                out.append("/");
            }
            out.append(tag);
            out.append(".");
            out.append(name);
            out.append(".html");
            proof {
                assert(out@ =~= spec_external_link(store, ctx, epv, id));
            }
            return Some(out);
        }
    }
    match store.find_path(id) {
        Some(pe) => {
            if !crate::strutil::path_eq(&pe.segments, &ep) {
                let p2 = crate::strutil::clone_segments(&pe.segments);
                return generate_type_link_depth(store, ctx, &p2, id, fuel - 1);
            }
        },
        None => {},
    }
    common_std_link(ep[0].as_str())
}

/// Resolve one reference: the destination for the item, or `None` when no
/// link can be constructed and the reference should stay plain text.
pub fn generate_type_link(
    store: &ItemStore,
    ctx: &LinkContext,
    path: &Vec<String>,
    id: u64,
) -> (r: Option<String>)
    ensures
        match r {
            Some(s) => spec_resolve_link(store, ctx, seq_views(path@), id, LINK_FUEL as nat)
                == Some(s@),
            None => spec_resolve_link(store, ctx, seq_views(path@), id, LINK_FUEL as nat) is None,
        },
{
    generate_type_link_depth(store, ctx, path, id, LINK_FUEL)
}

/// Fuel for the link resolver's one-step recursion guard.
pub const LINK_FUEL: u64 = 10;

/// Law: link determinism. The destination is a function of the reference
/// tuple (path, item, sibling set, base prefix) alone, so two resolutions of
/// the same tuple agree.
pub proof fn lemma_link_determinism(
    store: &ItemStore,
    ctx: &LinkContext,
    path: Seq<Seq<char>>,
    id: u64,
    r1: Option<Seq<char>>,
    r2: Option<Seq<char>>,
)
    requires
        r1 == spec_resolve_link(store, ctx, path, id, LINK_FUEL as nat),
        r2 == spec_resolve_link(store, ctx, path, id, LINK_FUEL as nat),
    ensures
        r1 == r2,
{
}

} // verus!
