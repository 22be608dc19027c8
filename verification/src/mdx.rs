//! Documentation-text sanitizing for MDX output: block-level HTML must be
//! separated from surrounding text by blank lines, and every tag must stand
//! on a line of its own.

use crate::strutil::{
    lemma_find_char_props, matches_at, seq_views, spec_find_char, spec_join, spec_split,
    spec_trim, str_contains, str_find_char, str_split_char, str_trim, str_eq,
};
use vstd::prelude::*;

verus! {

/// A line piece without one trailing carriage return.
pub open spec fn strip_cr(p: Seq<char>) -> Seq<char> {
    if p.len() > 0 && p.last() == '\r' {
        p.drop_last()
    } else {
        p
    }
}

/// The lines of a text: split at every newline, no final empty piece after a
/// trailing newline, and no text at all means no lines.
pub open spec fn spec_lines(s: Seq<char>) -> Seq<Seq<char>> {
    if s.len() == 0 {
        Seq::empty()
    } else {
        let ps = spec_split(s, '\n');
        let ps2 = if s.last() == '\n' {
            ps.drop_last()
        } else {
            ps
        };
        ps2.map_values(|p: Seq<char>| strip_cr(p))
    }
}

/// Split a text into lines.
pub fn split_lines(s: &str) -> (r: Vec<String>)
    ensures
        seq_views(r@) == spec_lines(s@),
{
    let ls = s.unicode_len();
    if ls == 0 {
        let r: Vec<String> = Vec::new();
        proof {
            assert(seq_views(r@) =~= spec_lines(s@));
        }
        return r;
    }
    let mut ps = str_split_char(s, '\n');
    proof {
        crate::strutil::lemma_split_nonempty(s@, '\n');
    }
    if s.get_char(ls - 1) == '\n' {
        let ghost before = seq_views(ps@);
        ps.pop();
        proof {
            assert(seq_views(ps@) =~= before.drop_last());
        }
    }
    // strip one trailing carriage return from each piece
    let mut r: Vec<String> = Vec::new();
    let mut i: usize = 0;
    while i < ps.len()
        invariant
            i <= ps@.len(),
            r@.len() == i,
            forall|j: int| 0 <= j < i ==> seq_views(r@)[j] == strip_cr(seq_views(ps@)[j]),
        decreases ps@.len() - i,
    {
        let ghost rv0 = seq_views(r@);
        let p = &ps[i];
        let lp = p.as_str().unicode_len();
        if lp > 0 && p.as_str().get_char(lp - 1) == '\r' {
            let q = p.as_str().substring_char(0, lp - 1);
            proof {
                assert(q@ =~= ps@[i as int]@.drop_last());
                assert(strip_cr(seq_views(ps@)[i as int]) == q@);
            }
            let qo = q.to_owned();
            let ghost qv = qo@;
            r.push(qo);
            proof {
                assert(seq_views(r@) =~= rv0.push(qv));
            }
        } else {
            let pc = p.clone();
            let ghost pv = pc@;
            proof {
                assert(strip_cr(seq_views(ps@)[i as int]) == pv);
            }
            r.push(pc);
            proof {
                assert(seq_views(r@) =~= rv0.push(pv));
            }
        }
        i = i + 1;
    }
    proof {
        assert(seq_views(r@) =~~= spec_lines(s@));
    }
    r
}

/// The block-level tags that must be separated from text.
pub open spec fn spec_block_tag(tag: Seq<char>) -> bool {
    tag == "details"@ || tag == "summary"@ || tag == "div"@ || tag == "table"@ || tag == "pre"@
        || tag == "blockquote"@
}

/// Index of the first `>` or space, or -1.
pub open spec fn spec_tag_end(s: Seq<char>) -> int
    decreases s.len(),
{
    if s.len() == 0 {
        -1
    } else if s[0] == '>' || s[0] == ' ' {
        0
    } else {
        let r = spec_tag_end(s.drop_first());
        if r < 0 {
            -1
        } else {
            r + 1
        }
    }
}

proof fn lemma_tag_end_props(s: Seq<char>)
    ensures
        spec_tag_end(s) >= 0 ==> 0 <= spec_tag_end(s) < s.len() && (s[spec_tag_end(s)] == '>'
            || s[spec_tag_end(s)] == ' ') && forall|j: int|
            0 <= j < spec_tag_end(s) ==> s[j] != '>' && s[j] != ' ',
        spec_tag_end(s) < 0 ==> forall|j: int| 0 <= j < s.len() ==> s[j] != '>' && s[j] != ' ',
    decreases s.len(),
{
    if s.len() > 0 && !(s[0] == '>' || s[0] == ' ') {
        lemma_tag_end_props(s.drop_first());
        let r = spec_tag_end(s.drop_first());
        if r >= 0 {
            assert forall|j: int| 0 <= j < r + 1 implies s[j] != '>' && s[j] != ' ' by {
                if j > 0 {
                    assert(s.drop_first()[j - 1] != '>' && s.drop_first()[j - 1] != ' ');
                }
            }
        } else {
            assert forall|j: int| 0 <= j < s.len() implies s[j] != '>' && s[j] != ' ' by {
                if j > 0 {
                    assert(s.drop_first()[j - 1] != '>' && s.drop_first()[j - 1] != ' ');
                }
            }
        }
    }
}

/// First `>` or space, executable form.
fn find_tag_end(s: &str) -> (r: Option<usize>)
    ensures
        match r {
            Some(i) => spec_tag_end(s@) == i as int,
            None => spec_tag_end(s@) < 0,
        },
{
    let ls = s.unicode_len();
    let mut i: usize = 0;
    while i < ls
        invariant
            i <= ls,
            ls == s@.len(),
            forall|j: int| 0 <= j < i ==> s@[j] != '>' && s@[j] != ' ',
        decreases ls - i,
    {
        let c = s.get_char(i);
        if c == '>' || c == ' ' {
            proof {
                lemma_tag_end_props(s@);
                let f = spec_tag_end(s@);
                if f < 0 {
                    assert(s@[i as int] != '>' && s@[i as int] != ' ');
                }
                if 0 <= f < i {
                    assert(s@[f] != '>' && s@[f] != ' ');
                }
                if f > i {
                    assert(s@[i as int] != '>' && s@[i as int] != ' ');
                }
            }
            return Some(i);
        }
        i = i + 1;
    }
    proof {
        lemma_tag_end_props(s@);
        if spec_tag_end(s@) >= 0 {
            assert(s@[spec_tag_end(s@)] != '>' && s@[spec_tag_end(s@)] != ' ');
        }
    }
    None
}

/// Whether a trimmed line opens a block-level HTML tag.
pub open spec fn spec_opens_block(t: Seq<char>) -> bool {
    &&& t.len() > 0
    &&& t[0] == '<'
    &&& !(t.len() >= 2 && t[1] == '/')
    &&& spec_tag_end(t) >= 0
    &&& spec_block_tag(spec_tag_of(t))
}

/// The tag name of a line that opens a tag.
pub open spec fn spec_tag_of(t: Seq<char>) -> Seq<char> {
    t.subrange(1, spec_tag_end(t))
}

/// Split a line that holds HTML tags into one piece per tag, with any text
/// between tags on pieces of its own.
pub open spec fn spec_split_tags(c: Seq<char>) -> Seq<Seq<char>>
    decreases c.len(),
{
    if c.len() == 0 {
        Seq::empty()
    } else {
        let ts = spec_find_char(c, '<');
        if ts < 0 {
            if spec_trim(c).len() > 0 {
                seq![c]
            } else {
                Seq::empty()
            }
        } else {
            let head: Seq<Seq<char>> = if ts > 0 {
                seq![c.take(ts)]
            } else {
                Seq::empty()
            };
            let te = spec_find_char(c.skip(ts), '>');
            if te < 0 {
                head + seq![c]
            } else {
                let cut0 = ts + te + 1;
                let cut = if cut0 < 1 {
                    1
                } else if cut0 > c.len() {
                    c.len() as int
                } else {
                    cut0
                };
                head + seq![c.subrange(ts, cut)] + spec_split_tags(c.skip(cut))
            }
        }
    }
}

/// Append the tag pieces of one line to the output lines.
fn append_split_tags(out: &mut Vec<String>, t: &str)
    ensures
        seq_views(final(out)@) == seq_views(old(out)@) + spec_split_tags(t@),
{
    let lt = t.unicode_len();
    let mut pos: usize = 0;
    let ghost mut done: Seq<Seq<char>> = Seq::empty();
    proof {
        assert(t@.skip(0) =~= t@);
        assert(seq_views(out@) =~= seq_views(old(out)@) + done);
        assert(spec_split_tags(t@) =~= done + spec_split_tags(t@.skip(0)));
    }
    loop
        invariant
            pos <= lt,
            lt == t@.len(),
            seq_views(out@) =~= seq_views(old(out)@) + done,
            spec_split_tags(t@) =~= done + spec_split_tags(t@.skip(pos as int)),
        ensures
            seq_views(out@) =~= seq_views(old(out)@) + spec_split_tags(t@),
        decreases lt - pos,
    {
        let ghost rem0 = t@.skip(pos as int);
        if pos == lt {
            proof {
                assert(rem0.len() == 0);
                assert(spec_split_tags(rem0) =~= Seq::<Seq<char>>::empty());
                assert(seq_views(out@) =~= seq_views(old(out)@) + spec_split_tags(t@));
            }
            return;
        }
        let rem = t.substring_char(pos, lt);
        proof {
            assert(rem@ =~= rem0);
            assert(rem0.len() > 0);
        }
        match str_find_char(rem, '<') {
            None => {
                let tr = str_trim(rem);
                if tr.as_str().unicode_len() > 0 {
                    let ro = rem.to_owned();
                    let ghost rv = ro@;
                    let ghost mid = seq_views(out@);
                    out.push(ro);
                    proof {
                        assert(seq_views(out@) =~= mid.push(rv));
                        assert(spec_split_tags(rem0) =~= seq![rem0]);
                        assert(seq_views(out@) =~= seq_views(old(out)@) + (done + seq![rem0]));
                        assert(done + spec_split_tags(rem0) =~= done + seq![rem0]);
                        assert(seq_views(out@) =~= seq_views(old(out)@) + spec_split_tags(t@));
                    }
                } else {
                    proof {
                        assert(spec_split_tags(rem0) =~= Seq::<Seq<char>>::empty());
                        assert(done + spec_split_tags(rem0) =~= done);
                        assert(seq_views(out@) =~= seq_views(old(out)@) + spec_split_tags(t@));
                    }
                }
                return;
            },
            Some(ts) => {
                proof {
                    lemma_find_char_props(rem0, '<');
                }
                let ghost head: Seq<Seq<char>> = if ts > 0 {
                    seq![rem0.take(ts as int)]
                } else {
                    Seq::<Seq<char>>::empty()
                };
                let ghost pre = seq_views(out@);
                if ts > 0 {
                    let headpiece = rem.substring_char(0, ts);
                    proof {
                        assert(headpiece@ =~= rem0.take(ts as int));
                    }
                    let ho = headpiece.to_owned();
                    let ghost hv = ho@;
                    out.push(ho);
                    proof {
                        assert(seq_views(out@) =~= pre.push(hv));
                        assert(seq_views(out@) =~= pre + head);
                    }
                } else {
                    proof {
                        assert(seq_views(out@) =~= pre + head);
                    }
                }
                let remlen = rem.unicode_len();
                let tail = rem.substring_char(ts, remlen);
                proof {
                    assert(tail@ =~= rem0.skip(ts as int));
                }
                match str_find_char(tail, '>') {
                    Some(te) => {
                        proof {
                            lemma_find_char_props(rem0.skip(ts as int), '>');
                            assert(rem0.skip(ts as int)[te as int] == rem0[ts + te]);
                        }
                        let piece = rem.substring_char(ts, ts + te + 1);
                        proof {
                            assert(piece@ =~= rem0.subrange(ts as int, ts + te + 1));
                        }
                        let po = piece.to_owned();
                        let ghost pv2 = po@;
                        let ghost mid = seq_views(out@);
                        out.push(po);
                        proof {
                            assert(seq_views(out@) =~= mid.push(pv2));
                            let cut = ts + te + 1;
                            assert(spec_split_tags(rem0) =~= head + seq![
                                rem0.subrange(ts as int, cut as int),
                            ] + spec_split_tags(rem0.skip(cut as int)));
                            assert(rem0.skip(cut as int) =~= t@.skip(pos + cut));
                            done = done + head + seq![rem0.subrange(ts as int, cut as int)];
                            assert(seq_views(out@) =~= seq_views(old(out)@) + done);
                            assert(spec_split_tags(t@) =~= done + spec_split_tags(
                                t@.skip(pos + cut),
                            ));
                        }
                        pos = pos + ts + te + 1;
                    },
                    None => {
                        let ro = rem.to_owned();
                        let ghost rv = ro@;
                        let ghost mid = seq_views(out@);
                        out.push(ro);
                        proof {
                            assert(seq_views(out@) =~= mid.push(rv));
                            assert(spec_split_tags(rem0) =~= head + seq![rem0]);
                            assert(seq_views(out@) =~= (seq_views(old(out)@) + done) + head + seq![
                                rem0,
                            ]);
                            assert(seq_views(out@) =~= seq_views(old(out)@) + (done + (head + seq![
                                rem0,
                            ])));
                            assert(done + spec_split_tags(rem0) =~= done + (head + seq![rem0]));
                            assert(seq_views(out@) =~= seq_views(old(out)@) + spec_split_tags(t@));
                        }
                        return;
                    },
                }
            },
        }
    }
}

/// One pass over the lines: the sanitized lines, given the position, the
/// lines already produced, and the block tag currently open, if any.
pub open spec fn spec_sanitize_rec(
    lines: Seq<Seq<char>>,
    i: int,
    acc: Seq<Seq<char>>,
    mode: Option<Seq<char>>,
) -> Seq<Seq<char>>
    decreases lines.len() - i,
{
    if i < 0 || i >= lines.len() {
        acc
    } else {
        match mode {
            Some(tag) => {
                let nt = spec_trim(lines[i]);
                let close = "</"@ + tag + ">"@;
                if exists|j: int| matches_at(nt, close, j) {
                    let acc2 = acc + spec_split_tags(nt);
                    let acc3 = if i + 1 < lines.len() && spec_trim(lines[i + 1]).len() > 0 {
                        acc2.push(Seq::empty())
                    } else {
                        acc2
                    };
                    spec_sanitize_rec(lines, i + 1, acc3, None)
                } else {
                    spec_sanitize_rec(lines, i + 1, acc.push(nt), Some(tag))
                }
            },
            None => {
                let t = spec_trim(lines[i]);
                if spec_opens_block(t) {
                    let acc1 = if acc.len() > 0 && acc.last().len() > 0 {
                        acc.push(Seq::empty())
                    } else {
                        acc
                    };
                    spec_sanitize_rec(lines, i + 1, acc1 + spec_split_tags(t), Some(spec_tag_of(t)))
                } else {
                    spec_sanitize_rec(lines, i + 1, acc.push(lines[i]), None)
                }
            },
        }
    }
}

/// The sanitized form of a documentation text.
pub open spec fn spec_sanitize(docs: Seq<char>) -> Seq<char> {
    spec_join(spec_sanitize_rec(spec_lines(docs), 0, Seq::empty(), None), "\n"@)
}

/// Sanitize documentation for MDX: block-level HTML is separated from text
/// paragraphs by blank lines, and every tag stands on a line of its own;
/// plain text keeps its lines unchanged.
pub fn sanitize_docs_for_mdx(docs: &str) -> (r: String)
    ensures
        r@ == spec_sanitize(docs@),
{
    let lines = split_lines(docs);
    let ghost lv = seq_views(lines@);
    let mut result: Vec<String> = Vec::new();
    let mut in_block = false;
    let mut cur_tag = String::new();
    let mut i: usize = 0;
    proof {
        assert(seq_views(result@) =~= Seq::<Seq<char>>::empty());
    }
    while i < lines.len()
        invariant
            i <= lines@.len(),
            lv == seq_views(lines@),
            spec_sanitize_rec(lv, 0, Seq::empty(), None) == spec_sanitize_rec(
                lv,
                i as int,
                seq_views(result@),
                if in_block {
                    Some(cur_tag@)
                } else {
                    None
                },
            ),
        decreases lines@.len() - i,
    {
        let ghost acc0 = seq_views(result@);
        let ghost mode0: Option<Seq<char>> = if in_block {
            Some(cur_tag@)
        } else {
            None
        };
        proof {
            assert(lv[i as int] == lines@[i as int]@);
        }
        if in_block {
            let ghost tag0 = cur_tag@;
            let ntrim = str_trim(lines[i].as_str());
            let ghost nt = ntrim@;
            let mut close = String::from_str("</");
            close.append(cur_tag.as_str());
            close.append(">");
            proof {
                assert(close@ =~= "</"@ + tag0 + ">"@);
            }
            if str_contains(ntrim.as_str(), close.as_str()) {
                append_split_tags(&mut result, ntrim.as_str());
                proof {
                    assert(seq_views(result@) =~= acc0 + spec_split_tags(nt));
                }
                if i + 1 < lines.len() {
                    let t2 = str_trim(lines[i + 1].as_str());
                    proof {
                        assert(t2@ == spec_trim(lv[i + 1]));
                    }
                    if t2.as_str().unicode_len() > 0 {
                        let ghost mid = seq_views(result@);
                        result.push(String::new());
                        proof {
                            assert(seq_views(result@) =~= mid.push(Seq::<char>::empty()));
                        }
                    }
                }
                in_block = false;
                proof {
                    assert(spec_sanitize_rec(lv, i as int, acc0, mode0) == spec_sanitize_rec(
                        lv,
                        i + 1,
                        seq_views(result@),
                        None,
                    ));
                }
            } else {
                let ghost mid = seq_views(result@);
                result.push(ntrim);
                proof {
                    assert(seq_views(result@) =~= mid.push(nt));
                    assert(spec_sanitize_rec(lv, i as int, acc0, mode0) == spec_sanitize_rec(
                        lv,
                        i + 1,
                        seq_views(result@),
                        Some(tag0),
                    ));
                }
            }
        } else {
            let t = str_trim(lines[i].as_str());
            let mut opens: Option<String> = None;
            let tl = t.as_str().unicode_len();
            if tl > 0 && t.as_str().get_char(0) == '<' {
                let second_slash = tl >= 2 && t.as_str().get_char(1) == '/';
                if !second_slash {
                    match find_tag_end(t.as_str()) {
                        Some(te) => {
                            proof {
                                lemma_tag_end_props(t@);
                            }
                            let tag = t.as_str().substring_char(1, te).to_owned();
                            proof {
                                assert(tag@ =~= spec_tag_of(t@));
                            }
                            let known = str_eq(tag.as_str(), "details") || str_eq(
                                tag.as_str(),
                                "summary",
                            ) || str_eq(tag.as_str(), "div") || str_eq(tag.as_str(), "table")
                                || str_eq(tag.as_str(), "pre") || str_eq(
                                tag.as_str(),
                                "blockquote",
                            );
                            if known {
                                opens = Some(tag);
                            }
                        },
                        None => {},
                    }
                }
            }
            match opens {
                Some(tag) => {
                    proof {
                        assert(spec_opens_block(t@));
                    }
                    let mut need_blank = false;
                    if result.len() > 0 {
                        if result[result.len() - 1].as_str().unicode_len() > 0 {
                            need_blank = true;
                        }
                    }
                    proof {
                        assert(seq_views(result@).len() == result@.len());
                        if result@.len() > 0 {
                            assert(seq_views(result@).last() == result@[result@.len() - 1]@);
                        }
                        assert(need_blank == (acc0.len() > 0 && acc0.last().len() > 0));
                    }
                    if need_blank {
                        let ghost mid = seq_views(result@);
                        result.push(String::new());
                        proof {
                            assert(seq_views(result@) =~= mid.push(Seq::<char>::empty()));
                        }
                    }
                    let ghost acc1 = seq_views(result@);
                    append_split_tags(&mut result, t.as_str());
                    proof {
                        assert(seq_views(result@) =~= acc1 + spec_split_tags(t@));
                    }
                    let ghost tagv = tag@;
                    cur_tag = tag;
                    in_block = true;
                    proof {
                        assert(tagv == spec_tag_of(t@));
                        assert(spec_sanitize_rec(lv, i as int, acc0, mode0) == spec_sanitize_rec(
                            lv,
                            i + 1,
                            seq_views(result@),
                            Some(cur_tag@),
                        ));
                    }
                },
                None => {
                    proof {
                        assert(!spec_opens_block(t@));
                    }
                    let lc = lines[i].clone();
                    let ghost lcv = lc@;
                    let ghost mid = seq_views(result@);
                    result.push(lc);
                    proof {
                        assert(lcv == lv[i as int]);
                        assert(seq_views(result@) =~= mid.push(lcv));
                        assert(spec_sanitize_rec(lv, i as int, acc0, mode0) == spec_sanitize_rec(
                            lv,
                            i + 1,
                            seq_views(result@),
                            None,
                        ));
                    }
                },
            }
        }
        i = i + 1;
    }
    let joined = crate::strutil::join_strings(&result, "\n");
    proof {
        assert(spec_sanitize_rec(lv, lines@.len() as int, seq_views(result@), if in_block {
            Some(cur_tag@)
        } else {
            None
        }) == seq_views(result@));
    }
    joined
}

/// The links of one page rendered as a JSON array of text/href objects.
pub open spec fn spec_escape_json(s: Seq<char>) -> Seq<char>
    decreases s.len(),
{
    if s.len() == 0 {
        s
    } else {
        let head: Seq<char> = if s[0] == '\\' {
            seq!['\\', '\\']
        } else if s[0] == '"' {
            seq!['\\', '"']
        } else {
            seq![s[0]]
        };
        head + spec_escape_json(s.drop_first())
    }
}

/// Escape a string for embedding in JSON.
pub fn escape_json(s: &str) -> (r: String)
    ensures
        r@ == spec_escape_json(s@),
{
    let ls = s.unicode_len();
    let mut out = String::new();
    let mut i: usize = 0;
    proof {
        assert(s@.skip(0) =~= s@);
    }
    while i < ls
        invariant
            i <= ls,
            ls == s@.len(),
            spec_escape_json(s@) =~= out@ + spec_escape_json(s@.skip(i as int)),
        decreases ls - i,
    {
        let c = s.get_char(i);
        proof {
            assert(s@.skip(i as int)[0] == s@[i as int]);
            assert(s@.skip(i as int).drop_first() =~= s@.skip(i + 1));
        }
        if c == '\\' {
            out.push('\\');
            out.push('\\');
        } else if c == '"' {
            out.push('\\');
            out.push('"');
        } else {
            out.push(c);
        }
        i = i + 1;
    }
    proof {
        assert(s@.skip(ls as int).len() == 0);
        assert(spec_escape_json(s@.skip(ls as int)) =~= Seq::<char>::empty());
        assert(out@ =~= spec_escape_json(s@));
    }
    out
}

/// One rendered link object.
pub open spec fn spec_link_json(text: Seq<char>, href: Seq<char>) -> Seq<char> {
    "{\"text\": \""@ + spec_escape_json(text) + "\", \"href\": \""@ + spec_escape_json(href)
        + "\"}"@
}

/// The rendered link list.
pub open spec fn spec_links_json(links: Seq<(Seq<char>, Seq<char>)>) -> Seq<char> {
    if links.len() == 0 {
        "[]"@
    } else {
        "["@ + spec_join(links.map_values(|l: (Seq<char>, Seq<char>)| spec_link_json(l.0, l.1)), ", "@)
            + "]"@
    }
}

/// Render collected links as a JSON array of `text`/`href` objects.
pub fn format_links_as_json(links: &Vec<(String, String)>) -> (r: String)
    ensures
        r@ == spec_links_json(links@.map_values(|l: (String, String)| (l.0@, l.1@))),
{
    let ghost lv = links@.map_values(|l: (String, String)| (l.0@, l.1@));
    if links.len() == 0 {
        let r = String::from_str("[]");
        return r;
    }
    let mut items: Vec<String> = Vec::new();
    let mut i: usize = 0;
    while i < links.len()
        invariant
            i <= links@.len(),
            lv == links@.map_values(|l: (String, String)| (l.0@, l.1@)),
            items@.len() == i,
            forall|j: int|
                0 <= j < i ==> seq_views(items@)[j] == spec_link_json(lv[j].0, lv[j].1),
        decreases links@.len() - i,
    {
        let mut o = String::from_str("{\"text\": \"");
        let et = escape_json(links[i].0.as_str());
        o.append(et.as_str());
        o.append("\", \"href\": \"");
        let eh = escape_json(links[i].1.as_str());
        o.append(eh.as_str());
        o.append("\"}");
        let ghost ov = o@;
        let ghost iv0 = seq_views(items@);
        proof {
            assert(ov =~= spec_link_json(lv[i as int].0, lv[i as int].1));
        }
        items.push(o);
        proof {
            assert(seq_views(items@) =~= iv0.push(ov));
        }
        i = i + 1;
    }
    let inner = crate::strutil::join_strings(&items, ", ");
    let mut out = String::from_str("[");
    out.append(inner.as_str());
    out.append("]");
    proof {
        assert(seq_views(items@) =~~= lv.map_values(
            |l: (Seq<char>, Seq<char>)| spec_link_json(l.0, l.1),
        ));
        assert(out@ =~= spec_links_json(lv));
    }
    out
}

} // verus!
