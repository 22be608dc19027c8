//! Verified string utilities: equality, lexicographic order, search, split
//! and join, all specified over `Seq<char>` views.

use vstd::prelude::*;

verus! {

/// Relies on `String::push`: appends exactly one character at the end.
pub assume_specification[ String::push ](s: &mut String, c: char)
    ensures
        final(s)@ == old(s)@.push(c),
;

/// Character order: by Unicode code point.
pub open spec fn char_lt(a: char, b: char) -> bool {
    (a as u32) < (b as u32)
}

/// Strict lexicographic order on character sequences.
pub open spec fn lex_lt(a: Seq<char>, b: Seq<char>) -> bool
    decreases a.len(),
{
    if b.len() == 0 {
        false
    } else if a.len() == 0 {
        true
    } else if char_lt(a[0], b[0]) {
        true
    } else if char_lt(b[0], a[0]) {
        false
    } else {
        lex_lt(a.drop_first(), b.drop_first())
    }
}

pub proof fn lemma_lex_lt_irreflexive(a: Seq<char>)
    ensures
        !lex_lt(a, a),
    decreases a.len(),
{
    if a.len() > 0 {
        lemma_lex_lt_irreflexive(a.drop_first());
    }
}

pub proof fn lemma_lex_lt_connex(a: Seq<char>, b: Seq<char>)
    ensures
        lex_lt(a, b) || lex_lt(b, a) || a == b,
    decreases a.len(),
{
    if a.len() == 0 && b.len() == 0 {
        assert(a =~= b);
    } else if a.len() > 0 && b.len() > 0 && !char_lt(a[0], b[0]) && !char_lt(b[0], a[0]) {
        assert(a[0] as u32 == b[0] as u32);
        vstd::utf8::char_u32_cast(a[0], a[0] as u32);
        vstd::utf8::char_u32_cast(b[0], b[0] as u32);
        assert(a[0] == b[0]);
        lemma_lex_lt_connex(a.drop_first(), b.drop_first());
        if a.drop_first() == b.drop_first() {
            assert(a =~= seq![a[0]] + a.drop_first());
            assert(b =~= seq![b[0]] + b.drop_first());
        }
    }
}

pub proof fn lemma_lex_lt_transitive(a: Seq<char>, b: Seq<char>, c: Seq<char>)
    requires
        lex_lt(a, b),
        lex_lt(b, c),
    ensures
        lex_lt(a, c),
    decreases a.len(),
{
    if a.len() > 0 && b.len() > 0 && c.len() > 0 {
        if !char_lt(a[0], b[0]) && !char_lt(b[0], a[0]) && !char_lt(b[0], c[0]) && !char_lt(
            c[0],
            b[0],
        ) {
            lemma_lex_lt_transitive(a.drop_first(), b.drop_first(), c.drop_first());
        }
    }
}

/// Strict lexicographic order test on string slices.
pub fn str_lt(a: &str, b: &str) -> (r: bool)
    ensures
        r == lex_lt(a@, b@),
{
    let la = a.unicode_len();
    let lb = b.unicode_len();
    let mut i: usize = 0;
    proof {
        assert(a@.skip(0) =~= a@);
        assert(b@.skip(0) =~= b@);
    }
    loop
        invariant
            i <= la,
            i <= lb,
            la == a@.len(),
            lb == b@.len(),
            lex_lt(a@, b@) == lex_lt(a@.skip(i as int), b@.skip(i as int)),
        decreases la - i,
    {
        if i >= lb {
            proof {
                assert(b@.skip(i as int).len() == 0);
            }
            return false;
        }
        if i >= la {
            proof {
                assert(a@.skip(i as int).len() == 0);
                assert(b@.skip(i as int).len() > 0);
            }
            return true;
        }
        let ca = a.get_char(i) as u32;
        let cb = b.get_char(i) as u32;
        proof {
            assert(a@.skip(i as int)[0] == a@[i as int]);
            assert(b@.skip(i as int)[0] == b@[i as int]);
        }
        if ca < cb {
            return true;
        }
        if cb < ca {
            return false;
        }
        proof {
            assert(a@.skip(i as int).drop_first() =~= a@.skip(i as int + 1));
            assert(b@.skip(i as int).drop_first() =~= b@.skip(i as int + 1));
        }
        i = i + 1;
    }
}

/// Equality test on string slices, in terms of their views.
pub fn str_eq(a: &str, b: &str) -> (r: bool)
    ensures
        r == (a@ == b@),
{
    let la = a.unicode_len();
    let lb = b.unicode_len();
    if la != lb {
        proof {
            if a@ == b@ {
                assert(a@.len() == b@.len());
            }
        }
        return false;
    }
    let mut i: usize = 0;
    while i < la
        invariant
            la == a@.len(),
            la == b@.len(),
            i <= la,
            forall|j: int| 0 <= j < i ==> a@[j] == b@[j],
        decreases la - i,
    {
        if a.get_char(i) != b.get_char(i) {
            proof {
                if a@ == b@ {
                    assert(a@[i as int] == b@[i as int]);
                }
            }
            return false;
        }
        i += 1;
    }
    proof {
        assert(a@ =~= b@);
    }
    true
}

/// The views of a sequence of strings.
pub open spec fn seq_views(p: Seq<String>) -> Seq<Seq<char>> {
    p.map_values(|s: String| s@)
}

/// Strict lexicographic order on paths (sequences of segments).
pub open spec fn plex_lt(a: Seq<Seq<char>>, b: Seq<Seq<char>>) -> bool
    decreases a.len(),
{
    if b.len() == 0 {
        false
    } else if a.len() == 0 {
        true
    } else if a[0] != b[0] {
        lex_lt(a[0], b[0])
    } else {
        plex_lt(a.drop_first(), b.drop_first())
    }
}

pub proof fn lemma_plex_lt_irreflexive(a: Seq<Seq<char>>)
    ensures
        !plex_lt(a, a),
    decreases a.len(),
{
    if a.len() > 0 {
        lemma_plex_lt_irreflexive(a.drop_first());
    }
}

pub proof fn lemma_plex_lt_connex(a: Seq<Seq<char>>, b: Seq<Seq<char>>)
    ensures
        plex_lt(a, b) || plex_lt(b, a) || a == b,
    decreases a.len(),
{
    if a.len() == 0 && b.len() == 0 {
        assert(a =~= b);
    } else if a.len() > 0 && b.len() > 0 {
        if a[0] != b[0] {
            lemma_lex_lt_connex(a[0], b[0]);
        } else {
            lemma_plex_lt_connex(a.drop_first(), b.drop_first());
            if a.drop_first() == b.drop_first() {
                assert(a =~= seq![a[0]] + a.drop_first());
                assert(b =~= seq![b[0]] + b.drop_first());
            }
        }
    }
}

pub proof fn lemma_plex_lt_transitive(a: Seq<Seq<char>>, b: Seq<Seq<char>>, c: Seq<Seq<char>>)
    requires
        plex_lt(a, b),
        plex_lt(b, c),
    ensures
        plex_lt(a, c),
    decreases a.len(),
{
    if a.len() > 0 && b.len() > 0 && c.len() > 0 {
        if a[0] == b[0] && b[0] == c[0] {
            lemma_plex_lt_transitive(a.drop_first(), b.drop_first(), c.drop_first());
        } else if a[0] == b[0] {
            // order decided between b[0] and c[0]; a[0] is the same segment
        } else if b[0] == c[0] {
            // order decided between a[0] and b[0]
        } else {
            lemma_lex_lt_transitive(a[0], b[0], c[0]);
            if a[0] == c[0] {
                lemma_lex_lt_transitive(a[0], b[0], a[0]);
                lemma_lex_lt_irreflexive(a[0]);
            }
        }
    }
}

/// Equality test on segment vectors, in terms of their views.
pub fn path_eq(a: &Vec<String>, b: &Vec<String>) -> (r: bool)
    ensures
        r == (seq_views(a@) == seq_views(b@)),
{
    if a.len() != b.len() {
        proof {
            if seq_views(a@) == seq_views(b@) {
                assert(seq_views(a@).len() == seq_views(b@).len());
            }
        }
        return false;
    }
    let mut i: usize = 0;
    while i < a.len()
        invariant
            i <= a.len(),
            a@.len() == b@.len(),
            forall|j: int| 0 <= j < i ==> a@[j]@ == b@[j]@,
        decreases a.len() - i,
    {
        if !str_eq(a[i].as_str(), b[i].as_str()) {
            proof {
                if seq_views(a@) == seq_views(b@) {
                    assert(seq_views(a@)[i as int] == seq_views(b@)[i as int]);
                }
            }
            return false;
        }
        i = i + 1;
    }
    proof {
        assert(seq_views(a@) =~~= seq_views(b@));
    }
    true
}

/// Strict order test on segment vectors.
pub fn path_lt(a: &Vec<String>, b: &Vec<String>) -> (r: bool)
    ensures
        r == plex_lt(seq_views(a@), seq_views(b@)),
{
    let ghost pa = seq_views(a@);
    let ghost pb = seq_views(b@);
    let mut i: usize = 0;
    proof {
        assert(pa.skip(0) =~= pa);
        assert(pb.skip(0) =~= pb);
    }
    loop
        invariant
            i <= a.len(),
            i <= b.len(),
            pa == seq_views(a@),
            pb == seq_views(b@),
            pa.len() == a.len(),
            pb.len() == b.len(),
            plex_lt(pa, pb) == plex_lt(pa.skip(i as int), pb.skip(i as int)),
        decreases a.len() - i,
    {
        if i >= b.len() {
            proof {
                assert(pb.skip(i as int).len() == 0);
            }
            return false;
        }
        if i >= a.len() {
            proof {
                assert(pa.skip(i as int).len() == 0);
                assert(pb.skip(i as int).len() > 0);
            }
            return true;
        }
        proof {
            assert(pa.skip(i as int)[0] == pa[i as int]);
            assert(pb.skip(i as int)[0] == pb[i as int]);
        }
        if str_eq(a[i].as_str(), b[i].as_str()) {
            proof {
                assert(pa.skip(i as int).drop_first() =~= pa.skip(i as int + 1));
                assert(pb.skip(i as int).drop_first() =~= pb.skip(i as int + 1));
            }
            i = i + 1;
        } else {
            return str_lt(a[i].as_str(), b[i].as_str());
        }
    }
}

/// Copy of a segment vector, preserving the view.
pub fn clone_segments(v: &Vec<String>) -> (r: Vec<String>)
    ensures
        seq_views(r@) == seq_views(v@),
        r@.len() == v@.len(),
{
    let mut r: Vec<String> = Vec::new();
    let mut i: usize = 0;
    while i < v.len()
        invariant
            i <= v.len(),
            r@.len() == i,
            forall|j: int| 0 <= j < i ==> r@[j]@ == v@[j]@,
        decreases v.len() - i,
    {
        r.push(v[i].clone());
        i = i + 1;
    }
    proof {
        assert(seq_views(r@) =~~= seq_views(v@));
    }
    r
}

/// Prefix test on string slices.
pub fn str_starts_with(s: &str, p: &str) -> (r: bool)
    ensures
        r == p@.is_prefix_of(s@),
{
    let ls = s.unicode_len();
    let lp = p.unicode_len();
    if lp > ls {
        return false;
    }
    let mut i: usize = 0;
    while i < lp
        invariant
            i <= lp,
            lp <= ls,
            ls == s@.len(),
            lp == p@.len(),
            forall|j: int| 0 <= j < i ==> s@[j] == p@[j],
        decreases lp - i,
    {
        if s.get_char(i) != p.get_char(i) {
            proof {
                if p@.is_prefix_of(s@) {
                    assert(s@.subrange(0, p@.len() as int)[i as int] == s@[i as int]);
                }
            }
            return false;
        }
        i = i + 1;
    }
    proof {
        assert(p@ =~= s@.subrange(0, p@.len() as int));
    }
    true
}

/// Whether `pat` occurs in `s` starting at position `i`.
pub open spec fn matches_at(s: Seq<char>, pat: Seq<char>, i: int) -> bool {
    0 <= i && i + pat.len() <= s.len() && s.subrange(i, i + pat.len()) == pat
}

/// Match test at one given position.
pub fn str_matches_at(s: &str, pat: &str, i: usize) -> (r: bool)
    requires
        i + pat@.len() <= s@.len(),
    ensures
        r == matches_at(s@, pat@, i as int),
{
    let lp = pat.unicode_len();
    let ls = s.unicode_len();
    let mut j: usize = 0;
    while j < lp
        invariant
            j <= lp,
            lp == pat@.len(),
            ls == s@.len(),
            i + lp <= ls,
            forall|k: int| 0 <= k < j ==> s@[i + k] == pat@[k],
        decreases lp - j,
    {
        if s.get_char(i + j) != pat.get_char(j) {
            proof {
                if matches_at(s@, pat@, i as int) {
                    assert(s@.subrange(i as int, i as int + pat@.len())[j as int] == s@[i + j]);
                }
            }
            return false;
        }
        j = j + 1;
    }
    proof {
        assert(s@.subrange(i as int, i as int + pat@.len()) =~= pat@);
    }
    true
}

/// First occurrence of `pat` in `s`, if any.
pub fn str_find(s: &str, pat: &str) -> (r: Option<usize>)
    ensures
        match r {
            Some(i) => matches_at(s@, pat@, i as int) && forall|j: int|
                0 <= j < i ==> !matches_at(s@, pat@, j),
            None => forall|j: int| !matches_at(s@, pat@, j),
        },
{
    let ls = s.unicode_len();
    let lp = pat.unicode_len();
    if lp > ls {
        return None;
    }
    let mut i: usize = 0;
    loop
        invariant
            ls == s@.len(),
            lp == pat@.len(),
            lp <= ls,
            i <= ls - lp,
            forall|j: int| 0 <= j < i ==> !matches_at(s@, pat@, j),
        decreases ls - lp - i,
    {
        if str_matches_at(s, pat, i) {
            return Some(i);
        }
        if i == ls - lp {
            return None;
        }
        i = i + 1;
    }
}

/// Containment test.
pub fn str_contains(s: &str, pat: &str) -> (r: bool)
    ensures
        r == exists|j: int| matches_at(s@, pat@, j),
{
    match str_find(s, pat) {
        Some(i) => {
            proof {
                assert(matches_at(s@, pat@, i as int));
            }
            true
        },
        None => false,
    }
}

/// ASCII whitespace.
pub open spec fn is_space(c: char) -> bool {
    c == ' ' || c == '\t' || c == '\r' || c == '\n'
}

/// `s` without leading whitespace.
pub open spec fn spec_trim_start(s: Seq<char>) -> Seq<char>
    decreases s.len(),
{
    if s.len() > 0 && is_space(s[0]) {
        spec_trim_start(s.drop_first())
    } else {
        s
    }
}

/// `s` without trailing whitespace.
pub open spec fn spec_trim_end(s: Seq<char>) -> Seq<char>
    decreases s.len(),
{
    if s.len() > 0 && is_space(s.last()) {
        spec_trim_end(s.drop_last())
    } else {
        s
    }
}

/// `s` without leading and trailing whitespace.
pub open spec fn spec_trim(s: Seq<char>) -> Seq<char> {
    spec_trim_end(spec_trim_start(s))
}

proof fn lemma_trim_start_skip(s: Seq<char>, i: int)
    requires
        0 <= i <= s.len(),
        forall|j: int| 0 <= j < i ==> is_space(s[j]),
    ensures
        spec_trim_start(s) == spec_trim_start(s.skip(i)),
    decreases i,
{
    if i > 0 {
        assert(s.len() > 0 && is_space(s[0]));
        assert(s.drop_first() =~= s.skip(1));
        lemma_trim_start_skip(s.skip(1), i - 1);
        assert(s.skip(1).skip(i - 1) =~= s.skip(i));
    } else {
        assert(s.skip(0) =~= s);
    }
}

proof fn lemma_trim_end_take(s: Seq<char>, i: int)
    requires
        0 <= i <= s.len(),
        forall|j: int| i <= j < s.len() ==> is_space(s[j]),
    ensures
        spec_trim_end(s) == spec_trim_end(s.take(i)),
    decreases s.len() - i,
{
    if i < s.len() {
        assert(s.len() > 0 && is_space(s.last()));
        assert(s.drop_last() =~= s.take(s.len() - 1));
        lemma_trim_end_take(s.take(s.len() - 1), i);
        assert(s.take(s.len() - 1).take(i) =~= s.take(i));
    } else {
        assert(s.take(i) =~= s);
    }
}

/// Whitespace test for one character.
pub fn char_is_space(c: char) -> (r: bool)
    ensures
        r == is_space(c),
{
    c == ' ' || c == '\t' || c == '\r' || c == '\n'
}

/// Trim of leading and trailing whitespace, as an owned string.
pub fn str_trim(s: &str) -> (r: String)
    ensures
        r@ == spec_trim(s@),
{
    let ls = s.unicode_len();
    let mut lo: usize = 0;
    while lo < ls && char_is_space(s.get_char(lo))
        invariant
            lo <= ls,
            ls == s@.len(),
            forall|j: int| 0 <= j < lo ==> is_space(s@[j]),
        decreases ls - lo,
    {
        lo = lo + 1;
    }
    proof {
        lemma_trim_start_skip(s@, lo as int);
    }
    let mut hi: usize = ls;
    while hi > lo && char_is_space(s.get_char(hi - 1))
        invariant
            lo <= hi <= ls,
            ls == s@.len(),
            forall|j: int| 0 <= j < lo ==> is_space(s@[j]),
            forall|j: int| hi <= j < ls ==> is_space(s@[j]),
        decreases hi,
    {
        hi = hi - 1;
    }
    let piece = s.substring_char(lo, hi);
    proof {
        let t = s@.skip(lo as int);
        assert(piece@ =~= t.take(hi - lo as int));
        if hi > lo {
            assert(!is_space(s@[lo as int]));
            assert(t[0] == s@[lo as int]);
            assert(spec_trim_start(t) == t);
        } else {
            assert(forall|j: int| 0 <= j < t.len() ==> is_space(t[j]));
            lemma_trim_start_skip(t, t.len() as int);
            assert(t.skip(t.len() as int) =~= t.take(hi - lo as int));
        }
        assert(forall|j: int| hi - lo <= j < t.len() ==> is_space(t[j]));
        lemma_trim_end_take(t, hi - lo as int);
        if hi > lo {
            assert(!is_space(s@[hi - 1]));
            assert(t.take(hi - lo as int).last() == s@[hi - 1]);
            assert(spec_trim_end(t.take(hi - lo as int)) == t.take(hi - lo as int));
        }
    }
    piece.to_owned()
}

/// Replacement of every occurrence of one character by another.
pub open spec fn spec_replace_char(s: Seq<char>, from: char, to: char) -> Seq<char> {
    s.map_values(|c: char| if c == from { to } else { c })
}

/// Replace every occurrence of `from` by `to`.
pub fn str_replace_char(s: &str, from: char, to: char) -> (r: String)
    ensures
        r@ == spec_replace_char(s@, from, to),
{
    let ls = s.unicode_len();
    let mut r = String::new();
    let mut i: usize = 0;
    while i < ls
        invariant
            i <= ls,
            ls == s@.len(),
            r@ == spec_replace_char(s@.take(i as int), from, to),
        decreases ls - i,
    {
        let c = s.get_char(i);
        if c == from {
            r.push(to);
        } else {
            r.push(c);
        }
        proof {
            assert(spec_replace_char(s@.take(i + 1), from, to) =~= spec_replace_char(
                s@.take(i as int),
                from,
                to,
            ).push(if s@[i as int] == from { to } else { s@[i as int] }));
        }
        i = i + 1;
    }
    proof {
        assert(s@.take(ls as int) =~= s@);
    }
    r
}

/// Split at every occurrence of `sep`; always at least one piece.
pub open spec fn spec_split(s: Seq<char>, sep: char) -> Seq<Seq<char>>
    decreases s.len(),
{
    if s.len() == 0 {
        seq![Seq::<char>::empty()]
    } else if s[0] == sep {
        seq![Seq::<char>::empty()] + spec_split(s.drop_first(), sep)
    } else {
        let rest = spec_split(s.drop_first(), sep);
        seq![seq![s[0]] + rest[0]] + rest.drop_first()
    }
}

pub proof fn lemma_split_nonempty(s: Seq<char>, sep: char)
    ensures
        spec_split(s, sep).len() >= 1,
    decreases s.len(),
{
    if s.len() > 0 {
        lemma_split_nonempty(s.drop_first(), sep);
    }
}

/// Split into pieces, as owned strings.
pub fn str_split_char(s: &str, sep: char) -> (r: Vec<String>)
    ensures
        seq_views(r@) == spec_split(s@, sep),
{
    let ls = s.unicode_len();
    let mut done: Vec<String> = Vec::new();
    let mut cur = String::new();
    let mut i: usize = 0;
    proof {
        assert(s@.skip(0) =~= s@);
        lemma_split_nonempty(s@, sep);
        assert(seq_views(done@) =~= Seq::<Seq<char>>::empty());
        assert(cur@ + spec_split(s@, sep)[0] =~= spec_split(s@, sep)[0]);
        assert(spec_split(s@, sep) =~= seq_views(done@) + seq![cur@ + spec_split(s@, sep)[0]]
            + spec_split(s@, sep).drop_first());
    }
    while i < ls
        invariant
            i <= ls,
            ls == s@.len(),
            spec_split(s@, sep) =~= seq_views(done@) + seq![cur@ + spec_split(
                s@.skip(i as int),
                sep,
            )[0]] + spec_split(s@.skip(i as int), sep).drop_first(),
        decreases ls - i,
    {
        let ghost pre = spec_split(s@.skip(i as int), sep);
        let ghost post = spec_split(s@.skip(i + 1), sep);
        proof {
            lemma_split_nonempty(s@.skip(i + 1), sep);
            assert(s@.skip(i as int)[0] == s@[i as int]);
            assert(s@.skip(i as int).drop_first() =~= s@.skip(i + 1));
            assert(s@.skip(i as int).len() > 0);
        }
        let c = s.get_char(i);
        if c == sep {
            proof {
                assert(pre =~= seq![Seq::<char>::empty()] + post);
                assert(pre[0] =~= Seq::<char>::empty());
                assert(pre.drop_first() =~= post);
                assert(seq_views(done@.push(cur)) =~= seq_views(done@) + seq![cur@]);
                assert(cur@ + pre[0] =~= cur@);
            }
            let finished = cur;
            cur = String::new();
            done.push(finished);
        } else {
            proof {
                assert(pre =~= seq![seq![s@[i as int]] + post[0]] + post.drop_first());
                assert(pre[0] =~= seq![s@[i as int]] + post[0]);
                assert(pre.drop_first() =~= post.drop_first());
                assert(cur@ + pre[0] =~= cur@.push(s@[i as int]) + post[0]);
            }
            cur.push(c);
        }
        i = i + 1;
    }
    proof {
        assert(s@.skip(ls as int).len() == 0);
        assert(spec_split(s@.skip(ls as int), sep) =~= seq![Seq::<char>::empty()]);
        assert(cur@ + spec_split(s@.skip(ls as int), sep)[0] =~= cur@);
        assert(seq_views(done@.push(cur)) =~= seq_views(done@) + seq![cur@]);
        assert(spec_split(s@.skip(ls as int), sep).drop_first() =~= Seq::<Seq<char>>::empty());
    }
    done.push(cur);
    proof {
        assert(seq_views(done@) =~= spec_split(s@, sep));
    }
    done
}

/// Join of pieces with a separator between each pair.
pub open spec fn spec_join(pieces: Seq<Seq<char>>, sep: Seq<char>) -> Seq<char>
    decreases pieces.len(),
{
    if pieces.len() == 0 {
        Seq::empty()
    } else if pieces.len() == 1 {
        pieces[0]
    } else {
        pieces[0] + sep + spec_join(pieces.drop_first(), sep)
    }
}

pub proof fn lemma_join_push(pieces: Seq<Seq<char>>, sep: Seq<char>, last: Seq<char>)
    ensures
        spec_join(pieces.push(last), sep) == if pieces.len() == 0 {
            last
        } else {
            spec_join(pieces, sep) + sep + last
        },
    decreases pieces.len(),
{
    if pieces.len() == 0 {
        assert(spec_join(pieces.push(last), sep) =~= last);
    } else if pieces.len() == 1 {
        assert(pieces.push(last).drop_first() =~= seq![last]);
        assert(spec_join(seq![last], sep) == last);
        assert(spec_join(pieces.push(last), sep) =~= pieces[0] + sep + last);
    } else {
        lemma_join_push(pieces.drop_first(), sep, last);
        assert(pieces.push(last).drop_first() =~= pieces.drop_first().push(last));
        assert(spec_join(pieces.push(last), sep) =~= pieces[0] + sep + spec_join(
            pieces.drop_first().push(last),
            sep,
        ));
        assert(spec_join(pieces, sep) + sep + last =~= pieces[0] + sep + (spec_join(
            pieces.drop_first(),
            sep,
        ) + sep + last));
    }
}

/// Join pieces with the given separator.
pub fn join_strings(pieces: &Vec<String>, sep: &str) -> (r: String)
    ensures
        r@ == spec_join(seq_views(pieces@), sep@),
{
    let mut r = String::new();
    let mut i: usize = 0;
    while i < pieces.len()
        invariant
            i <= pieces.len(),
            r@ == spec_join(seq_views(pieces@).take(i as int), sep@),
        decreases pieces.len() - i,
    {
        if i > 0 {
            r.append(sep);
        }
        r.append(pieces[i].as_str());
        proof {
            let vs = seq_views(pieces@);
            assert(vs.take(i + 1) =~= vs.take(i as int).push(pieces@[i as int]@));
            lemma_join_push(vs.take(i as int), sep@, pieces@[i as int]@);
        }
        i = i + 1;
    }
    proof {
        assert(seq_views(pieces@).take(pieces@.len() as int) =~= seq_views(pieces@));
    }
    r
}

/// Index of the first occurrence of a character, or -1.
pub open spec fn spec_find_char(s: Seq<char>, c: char) -> int
    decreases s.len(),
{
    if s.len() == 0 {
        -1
    } else if s[0] == c {
        0
    } else {
        let r = spec_find_char(s.drop_first(), c);
        if r < 0 {
            -1
        } else {
            r + 1
        }
    }
}

pub proof fn lemma_find_char_props(s: Seq<char>, c: char)
    ensures
        spec_find_char(s, c) >= 0 ==> 0 <= spec_find_char(s, c) < s.len() && s[spec_find_char(
            s,
            c,
        )] == c && forall|j: int| 0 <= j < spec_find_char(s, c) ==> s[j] != c,
        spec_find_char(s, c) < 0 ==> forall|j: int| 0 <= j < s.len() ==> s[j] != c,
    decreases s.len(),
{
    if s.len() > 0 && s[0] != c {
        lemma_find_char_props(s.drop_first(), c);
        let r = spec_find_char(s.drop_first(), c);
        if r >= 0 {
            assert forall|j: int| 0 <= j < r + 1 implies s[j] != c by {
                if j > 0 {
                    assert(s.drop_first()[j - 1] != c);
                }
            }
        } else {
            assert forall|j: int| 0 <= j < s.len() implies s[j] != c by {
                if j > 0 {
                    assert(s.drop_first()[j - 1] != c);
                }
            }
        }
    }
}

/// First occurrence of a character, executable form.
pub fn str_find_char(s: &str, c: char) -> (r: Option<usize>)
    ensures
        match r {
            Some(i) => spec_find_char(s@, c) == i as int,
            None => spec_find_char(s@, c) < 0,
        },
{
    let ls = s.unicode_len();
    let mut i: usize = 0;
    while i < ls
        invariant
            i <= ls,
            ls == s@.len(),
            forall|j: int| 0 <= j < i ==> s@[j] != c,
        decreases ls - i,
    {
        if s.get_char(i) == c {
            proof {
                lemma_find_char_props(s@, c);
                let f = spec_find_char(s@, c);
                if f < 0 {
                    assert(s@[i as int] != c);
                }
                if 0 <= f < i {
                    assert(s@[f] != c);
                }
                if f > i {
                    assert(s@[i as int] != c);
                }
            }
            return Some(i);
        }
        i = i + 1;
    }
    proof {
        lemma_find_char_props(s@, c);
        if spec_find_char(s@, c) >= 0 {
            assert(s@[spec_find_char(s@, c)] != c);
        }
    }
    None
}

} // verus!
