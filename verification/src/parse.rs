//! Lexical recognition of inclusion directives.
//!
//! A line whose first non-blank byte is `#`, and whose directive word
//! after further blanks is exactly the inclusion keyword, yields the first
//! `"..."` or `<...>` token found on the rest of the line. Every other
//! line is ignored: there is no handling of backslash-continued lines,
//! a deliberate lenient limitation.

use vstd::prelude::*;
use crate::graph::IncludeMapping;
use crate::graph::map_add;

verus! {

/// How a directive names its target: in double quotes, or in angle
/// brackets (a system header, outside project scope).
#[derive(Clone, Copy, Debug, PartialEq, Eq, Structural)]
pub enum IncludeKind {
    Quoted,
    Angled,
}

/// Space or tab.
pub open spec fn is_blank(b: u8) -> bool {
    b == 32 || b == 9
}

/// A byte that may continue an identifier word.
pub open spec fn is_ident(b: u8) -> bool {
    (97 <= b <= 122) || (65 <= b <= 90) || (48 <= b <= 57) || b == 95
}

/// The directive keyword, as bytes.
pub open spec fn kw() -> Seq<u8> {
    seq![105u8, 110u8, 99u8, 108u8, 117u8, 100u8, 101u8]
}

/// `s` without its leading blanks.
pub open spec fn drop_blanks(s: Seq<u8>) -> Seq<u8>
    decreases s.len(),
{
    if s.len() > 0 && is_blank(s[0]) {
        drop_blanks(s.skip(1))
    } else {
        s
    }
}

/// The bytes of `s` before the first `c`, or nothing if `c` never occurs.
pub open spec fn upto(s: Seq<u8>, c: u8) -> Option<Seq<u8>>
    decreases s.len(),
{
    if s.len() == 0 {
        Option::None
    } else if s[0] == c {
        Some(Seq::empty())
    } else {
        match upto(s.skip(1), c) {
            Option::None => Option::None,
            Some(t) => Some(seq![s[0]] + t),
        }
    }
}

/// When `upto` finds a prefix, the prefix is an initial segment of `s`
/// that is free of `c` and stops right before a `c`.
pub proof fn lemma_upto_some(s: Seq<u8>, c: u8, t: Seq<u8>)
    requires
        upto(s, c) == Some(t),
    ensures
        t.len() < s.len(),
        t == s.subrange(0, t.len() as int),
        s[t.len() as int] == c,
        forall|j: int| 0 <= j < t.len() ==> s[j] != c,
    decreases s.len(),
{
    if s.len() == 0 {
    } else if s[0] == c {
        assert(t =~= s.subrange(0, 0));
    } else {
        let t1 = choose|t1: Seq<u8>| upto(s.skip(1), c) == Some(t1);
        lemma_upto_some(s.skip(1), c, t1);
        assert(t == seq![s[0]] + t1);
        assert(t =~= s.subrange(0, t.len() as int)) by {
            assert forall|j: int| 0 <= j < t.len() implies t[j] == s[j] by {
                if j > 0 {
                    assert(t1[j - 1] == s.skip(1)[j - 1]);
                }
            }
        }
        assert(s[t.len() as int] == s.skip(1)[t1.len() as int]);
        assert forall|j: int| 0 <= j < t.len() implies s[j] != c by {
            if j > 0 {
                assert(s.skip(1)[j - 1] != c);
                assert(s.skip(1)[j - 1] == s[j]);
            }
        }
    }
}

/// When `upto` finds nothing, `c` does not occur in `s`.
pub proof fn lemma_upto_none(s: Seq<u8>, c: u8)
    requires
        upto(s, c) == Option::None::<Seq<u8>>,
    ensures
        forall|j: int| 0 <= j < s.len() ==> s[j] != c,
    decreases s.len(),
{
    if s.len() > 0 && s[0] != c {
        lemma_upto_none(s.skip(1), c);
        assert forall|j: int| 0 <= j < s.len() implies s[j] != c by {
            if j > 0 {
                assert(s.skip(1)[j - 1] == s[j]);
            }
        }
    }
}

/// What follows a recognized directive head on the line, if the line has
/// one: leading blanks, `#`, more blanks, the keyword, and no identifier
/// byte right after the keyword.
pub open spec fn directive_rest(line: Seq<u8>) -> Option<Seq<u8>> {
    let t = drop_blanks(line);
    if t.len() > 0 && t[0] == 35u8 {
        let u = drop_blanks(t.skip(1));
        if u.len() >= 7 && u.subrange(0, 7) == kw() && (u.len() == 7 || !is_ident(u[7])) {
            Some(u.skip(7))
        } else {
            Option::None
        }
    } else {
        Option::None
    }
}

/// The first quoted or angled token in `rest`: at the first `"` a quoted
/// token runs to the next `"`, at the first `<` an angled token runs to
/// the next `>`; an unterminated token is no token.
pub open spec fn token_in(rest: Seq<u8>) -> Option<(IncludeKind, Seq<u8>)>
    decreases rest.len(),
{
    if rest.len() == 0 {
        Option::None
    } else if rest[0] == 34u8 {
        match upto(rest.skip(1), 34u8) {
            Some(t) => Some((IncludeKind::Quoted, t)),
            Option::None => Option::None,
        }
    } else if rest[0] == 60u8 {
        match upto(rest.skip(1), 62u8) {
            Some(t) => Some((IncludeKind::Angled, t)),
            Option::None => Option::None,
        }
    } else {
        token_in(rest.skip(1))
    }
}

/// The directive token of a line, if the line is a directive with a
/// well-delimited token.
pub open spec fn parse_line_spec(line: Seq<u8>) -> Option<(IncludeKind, Seq<u8>)> {
    match directive_rest(line) {
        Option::None => Option::None,
        Some(rest) => token_in(rest),
    }
}

/// Advances `i` past blanks, so that the suffix at the result is
/// `drop_blanks` of the suffix at `i`.
fn skip_blanks(s: &Vec<u8>, i: usize) -> (r: usize)
    requires
        i <= s@.len(),
    ensures
        i <= r <= s@.len(),
        drop_blanks(s@.skip(i as int)) == s@.skip(r as int),
{
    let mut j: usize = i;
    while j < s.len() && (s[j] == 32 || s[j] == 9)
        invariant
            i <= j <= s@.len(),
            drop_blanks(s@.skip(i as int)) == drop_blanks(s@.skip(j as int)),
        decreases s@.len() - j,
    {
        proof {
            assert(s@.skip(j as int)[0] == s@[j as int]);
            assert(s@.skip(j as int).skip(1) =~= s@.skip(j + 1));
        }
        j = j + 1;
    }
    proof {
        if j < s@.len() {
            assert(s@.skip(j as int)[0] == s@[j as int]);
        }
    }
    j
}

/// Scans `s` from `i` for the closing byte `c`, returning the token
/// between, exactly when `upto` of the suffix finds one.
fn take_upto(s: &Vec<u8>, i: usize, c: u8) -> (r: Option<Vec<u8>>)
    requires
        i <= s@.len(),
    ensures
        match r {
            Some(t) => upto(s@.skip(i as int), c) == Some(t@),
            Option::None => upto(s@.skip(i as int), c) == Option::None::<Seq<u8>>,
        },
{
    let mut out: Vec<u8> = Vec::new();
    let mut j: usize = i;
    while j < s.len()
        invariant_except_break
            i <= j <= s@.len(),
            out@ =~= s@.subrange(i as int, j as int),
            forall|k: int| i <= k < j ==> s@[k] != c,
        ensures
            i <= j <= s@.len(),
            out@ =~= s@.subrange(i as int, j as int),
            forall|k: int| i <= k < j ==> s@[k] != c,
            j < s@.len() ==> s@[j as int] == c,
        decreases s@.len() - j,
    {
        let b = s[j];
        if b == c {
            break ;
        }
        out.push(b);
        j = j + 1;
    }
    if j < s.len() {
        proof {
            lemma_upto_complete(s@.skip(i as int), c, (j - i) as int);
            assert(s@.skip(i as int).subrange(0, j - i) =~= s@.subrange(i as int, j as int));
        }
        Some(out)
    } else {
        proof {
            lemma_upto_missing(s@.skip(i as int), c);
        }
        None
    }
}

/// If position `m` of `s` holds `c` and nothing before it does, `upto`
/// returns exactly the first `m` bytes.
proof fn lemma_upto_complete(s: Seq<u8>, c: u8, m: int)
    requires
        0 <= m < s.len(),
        s[m] == c,
        forall|k: int| 0 <= k < m ==> s[k] != c,
    ensures
        upto(s, c) == Some(s.subrange(0, m)),
    decreases m,
{
    if m == 0 {
        assert(s.subrange(0, 0) =~= Seq::<u8>::empty());
    } else {
        assert(s.skip(1)[m - 1] == s[m]);
        assert forall|k: int| 0 <= k < m - 1 implies s.skip(1)[k] != c by {
            assert(s.skip(1)[k] == s[k + 1]);
        }
        lemma_upto_complete(s.skip(1), c, m - 1);
        assert(seq![s[0]] + s.skip(1).subrange(0, m - 1) =~= s.subrange(0, m));
    }
}

/// If `c` is nowhere in `s`, `upto` finds nothing.
proof fn lemma_upto_missing(s: Seq<u8>, c: u8)
    requires
        forall|k: int| 0 <= k < s.len() ==> s[k] != c,
    ensures
        upto(s, c) == Option::None::<Seq<u8>>,
    decreases s.len(),
{
    if s.len() > 0 {
        assert forall|k: int| 0 <= k < s.skip(1).len() implies s.skip(1)[k] != c by {
            assert(s.skip(1)[k] == s[k + 1]);
        }
        lemma_upto_missing(s.skip(1), c);
    }
}

/// Parses one line: its directive token and kind, if it has one.
#[verifier::rlimit(60)]
pub fn parse_directive(line: &Vec<u8>) -> (r: Option<(IncludeKind, Vec<u8>)>)
    ensures
        match r {
            Some(p) => parse_line_spec(line@) == Some((p.0, p.1@)),
            Option::None => parse_line_spec(line@) == Option::None::<(IncludeKind, Seq<u8>)>,
        },
{
    proof {
        assert(line@.skip(0) =~= line@);
    }
    let a = skip_blanks(line, 0);
    if a >= line.len() {
        return None;
    }
    proof {
        assert(drop_blanks(line@)[0] == line@[a as int]);
    }
    if line[a] != 35 {
        return None;
    }
    proof {
        assert(drop_blanks(line@).skip(1) =~= line@.skip(a + 1));
    }
    let b = skip_blanks(line, a + 1);
    // the keyword, byte for byte
    if line.len() - b < 7 {
        proof {
            lemma_short_head(line@, a as int, b as int);
        }
        return None;
    }
    let k0 = line[b] == 105 && line[b + 1] == 110 && line[b + 2] == 99 && line[b + 3] == 108
        && line[b + 4] == 117 && line[b + 5] == 100 && line[b + 6] == 101;
    proof {
        let u = drop_blanks(line@.skip(a + 1));
        assert(u == line@.skip(b as int));
        assert forall|j: int| 0 <= j < 7 implies u[j] == line@[b + j] by {}
        if k0 {
            assert(u.subrange(0, 7) =~= kw());
        } else {
            assert(u.subrange(0, 7)[0] == u[0]);
            if u.subrange(0, 7) == kw() {
                assert(forall|j: int| 0 <= j < 7 ==> u.subrange(0, 7)[j] == kw()[j]);
                assert(false);
            }
        }
    }
    if !k0 {
        return None;
    }
    if b + 7 < line.len() {
        let c = line[b + 7];
        if (97 <= c && c <= 122) || (65 <= c && c <= 90) || (48 <= c && c <= 57) || c == 95 {
            proof {
                let u = drop_blanks(line@.skip(a + 1));
                assert(u[7] == line@[b + 7]);
            }
            return None;
        }
    }
    proof {
        let u = drop_blanks(line@.skip(a + 1));
        if u.len() > 7 {
            assert(u[7] == line@[b + 7]);
        }
        assert(directive_rest(line@) == Some(u.skip(7)));
        assert(u.skip(7) =~= line@.skip(b + 7));
    }
    // the first token on the rest of the line
    let mut j: usize = b + 7;
    while j < line.len()
        invariant_except_break
            b + 7 <= j <= line@.len(),
            token_in(line@.skip((b + 7) as int)) == token_in(line@.skip(j as int)),
        ensures
            b + 7 <= j <= line@.len(),
            token_in(line@.skip((b + 7) as int)) == token_in(line@.skip(j as int)),
            j < line@.len() ==> (line@[j as int] == 34 || line@[j as int] == 60),
        decreases line@.len() - j,
    {
        let ch = line[j];
        proof {
            assert(line@.skip(j as int)[0] == line@[j as int]);
            assert(line@.skip(j as int).skip(1) =~= line@.skip(j + 1));
        }
        if ch == 34 || ch == 60 {
            break ;
        }
        j = j + 1;
    }
    if j >= line.len() {
        proof {
            assert(line@.skip(j as int).len() == 0);
        }
        return None;
    }
    let open = line[j];
    let close: u8 = if open == 34 {
        34
    } else {
        62
    };
    proof {
        assert(line@.skip(j as int)[0] == line@[j as int]);
        assert(line@.skip(j as int).skip(1) =~= line@.skip(j + 1));
    }
    let tok = take_upto(line, j + 1, close);
    match tok {
        Some(t) => {
            if open == 34 {
                Some((IncludeKind::Quoted, t))
            } else {
                Some((IncludeKind::Angled, t))
            }
        },
        None => None,
    }
}

/// A directive head whose keyword would run past the end of the line is
/// no directive.
proof fn lemma_short_head(line: Seq<u8>, a: int, b: int)
    requires
        0 <= a <= line.len(),
        drop_blanks(line) == line.skip(a),
        a < line.len(),
        line[a] == 35,
        0 <= b <= line.len(),
        drop_blanks(line.skip(a + 1)) == line.skip(b),
        b + 7 > line.len(),
    ensures
        directive_rest(line) == Option::None::<Seq<u8>>,
{
    let t = drop_blanks(line);
    assert(t[0] == line[a]);
    assert(t.skip(1) =~= line.skip(a + 1));
    assert(drop_blanks(t.skip(1)).len() < 7);
}

/// The pieces of `s` between occurrences of `c`; the separators belong
/// to no piece, and `n + 1` pieces come out of `n` separators.
pub open spec fn split_spec(s: Seq<u8>, c: u8) -> Seq<Seq<u8>>
    decreases s.len(),
    via split_spec_dec
{
    match upto(s, c) {
        Option::None => seq![s],
        Some(first) => seq![first] + split_spec(s.skip(first.len() as int + 1), c),
    }
}

#[via_fn]
proof fn split_spec_dec(s: Seq<u8>, c: u8) {
    match upto(s, c) {
        Option::None => {},
        Some(first) => {
            lemma_upto_some(s, c, first);
        },
    }
}

/// The lines of a text, split at every newline; the newline bytes
/// themselves belong to no line.
pub open spec fn lines_spec(s: Seq<u8>) -> Seq<Seq<u8>> {
    split_spec(s, 10u8)
}

/// Splits `s` at every occurrence of `c`.
pub fn split_bytes(s: &Vec<u8>, c: u8) -> (r: Vec<Vec<u8>>)
    ensures
        r.deep_view() == split_spec(s@, c),
{
    let mut out: Vec<Vec<u8>> = Vec::new();
    let mut start: usize = 0;
    proof {
        assert(s@.skip(0) =~= s@);
        assert(out.deep_view() =~= Seq::<Seq<u8>>::empty());
    }
    loop
        invariant_except_break
            start <= s@.len(),
            split_spec(s@, c) == out.deep_view() + split_spec(s@.skip(start as int), c),
        ensures
            split_spec(s@, c) == out.deep_view(),
        decreases s@.len() - start + 1,
    {
        let mut k: usize = start;
        while k < s.len()
            invariant_except_break
                start <= k <= s@.len(),
                forall|m: int| start <= m < k ==> s@[m] != c,
            ensures
                start <= k <= s@.len(),
                forall|m: int| start <= m < k ==> s@[m] != c,
                k < s@.len() ==> s@[k as int] == c,
            decreases s@.len() - k,
        {
            if s[k] == c {
                break ;
            }
            k = k + 1;
        }
        let mut piece: Vec<u8> = Vec::new();
        let mut m: usize = start;
        while m < k
            invariant
                start <= m <= k <= s@.len(),
                piece@ =~= s@.subrange(start as int, m as int),
            decreases k - m,
        {
            piece.push(s[m]);
            m = m + 1;
        }
        let ghost suffix = s@.skip(start as int);
        let ghost before = out.deep_view();
        proof {
            assert(piece@ =~= suffix.subrange(0, (k - start) as int));
            if k < s@.len() {
                assert forall|j: int| 0 <= j < k - start implies suffix[j] != c by {
                    assert(suffix[j] == s@[start + j]);
                }
                assert(suffix[(k - start) as int] == s@[k as int]);
                lemma_upto_complete(suffix, c, (k - start) as int);
                assert(split_spec(suffix, c) == seq![piece@] + split_spec(
                    suffix.skip(k - start + 1),
                    c,
                ));
                assert(suffix.skip(k - start + 1) =~= s@.skip(k + 1));
            } else {
                assert forall|j: int| 0 <= j < suffix.len() implies suffix[j] != c by {
                    assert(suffix[j] == s@[start + j]);
                }
                lemma_upto_missing(suffix, c);
                assert(split_spec(suffix, c) == seq![suffix]);
                assert(piece@ =~= suffix);
            }
        }
        let ghost pre_out = out@;
        out.push(piece);
        proof {
            assert(out@ == pre_out.push(piece));
            assert forall|j: int| 0 <= j < out.deep_view().len() implies out.deep_view()[j] == (
            before + seq![piece@])[j] by {
                assert(out.deep_view()[j] == out@[j].deep_view());
                if j < before.len() {
                    assert(out@[j] == pre_out[j]);
                    assert(before[j] == pre_out[j].deep_view());
                }
            }
            assert(out.deep_view() =~= before + seq![piece@]);
            if k < s@.len() {
                assert(out.deep_view() + split_spec(s@.skip(k + 1), c) =~= before + split_spec(
                    suffix,
                    c,
                ));
            } else {
                assert(out.deep_view() =~= before + split_spec(suffix, c));
            }
        }
        if k == s.len() {
            break ;
        }
        start = k + 1;
    }
    out
}

/// The directive tokens of a sequence of lines, in source order.
pub open spec fn directives_of_lines(ls: Seq<Seq<u8>>) -> Seq<(IncludeKind, Seq<u8>)>
    decreases ls.len(),
{
    if ls.len() == 0 {
        Seq::empty()
    } else {
        match parse_line_spec(ls[0]) {
            Option::None => directives_of_lines(ls.skip(1)),
            Some(d) => seq![d] + directives_of_lines(ls.skip(1)),
        }
    }
}

/// The directive tokens of a whole text, line by line, in source order.
pub open spec fn text_directives(s: Seq<u8>) -> Seq<(IncludeKind, Seq<u8>)> {
    directives_of_lines(lines_spec(s))
}

/// The view of a collected directive list.
pub open spec fn dirs_view(o: Seq<(IncludeKind, Vec<u8>)>) -> Seq<(IncludeKind, Seq<u8>)> {
    Seq::new(o.len(), |i: int| (o[i].0, o[i].1@))
}

/// Collects the directive tokens of a text, line by line.
pub fn scan_directives(text: &Vec<u8>) -> (r: Vec<(IncludeKind, Vec<u8>)>)
    ensures
        dirs_view(r@) == text_directives(text@),
{
    let mut out: Vec<(IncludeKind, Vec<u8>)> = Vec::new();
    let mut start: usize = 0;
    proof {
        assert(text@.skip(0) =~= text@);
        assert(dirs_view(out@) =~= Seq::<(IncludeKind, Seq<u8>)>::empty());
    }
    loop
        invariant_except_break
            start <= text@.len(),
            text_directives(text@) == dirs_view(out@) + directives_of_lines(
                lines_spec(text@.skip(start as int)),
            ),
        ensures
            text_directives(text@) == dirs_view(out@),
        decreases text@.len() - start + 1,
    {
        // find the end of the current line
        let mut k: usize = start;
        while k < text.len()
            invariant_except_break
                start <= k <= text@.len(),
                forall|m: int| start <= m < k ==> text@[m] != 10,
            ensures
                start <= k <= text@.len(),
                forall|m: int| start <= m < k ==> text@[m] != 10,
                k < text@.len() ==> text@[k as int] == 10,
            decreases text@.len() - k,
        {
            if text[k] == 10 {
                break ;
            }
            k = k + 1;
        }
        let mut line: Vec<u8> = Vec::new();
        let mut m: usize = start;
        while m < k
            invariant
                start <= m <= k <= text@.len(),
                line@ =~= text@.subrange(start as int, m as int),
            decreases k - m,
        {
            line.push(text[m]);
            m = m + 1;
        }
        let ghost suffix = text@.skip(start as int);
        let ghost rest_lines = lines_spec(suffix);
        proof {
            assert(line@ =~= suffix.subrange(0, (k - start) as int));
            if k < text@.len() {
                assert forall|j: int| 0 <= j < k - start implies suffix[j] != 10 by {
                    assert(suffix[j] == text@[start + j]);
                }
                assert(suffix[(k - start) as int] == text@[k as int]);
                lemma_upto_complete(suffix, 10u8, (k - start) as int);
                assert(rest_lines == seq![line@] + lines_spec(suffix.skip(k - start + 1)));
                assert(suffix.skip(k - start + 1) =~= text@.skip(k + 1));
            } else {
                assert forall|j: int| 0 <= j < suffix.len() implies suffix[j] != 10 by {
                    assert(suffix[j] == text@[start + j]);
                }
                lemma_upto_missing(suffix, 10u8);
                assert(rest_lines == seq![suffix]);
                assert(line@ =~= suffix);
            }
            assert(rest_lines[0] == line@);
            assert((seq![line@] + lines_spec(text@.skip(k + 1))).skip(1) =~= lines_spec(
                text@.skip(k + 1),
            )) by {
                if k < text@.len() {
                }
            }
        }
        let ghost before = dirs_view(out@);
        let parsed = parse_directive(&line);
        match parsed {
            Some(p) => {
                proof {
                    assert(parse_line_spec(line@) == Some((p.0, p.1@)));
                }
                out.push(p);
                proof {
                    assert(dirs_view(out@) =~= before + seq![(p.0, p.1@)]);
                }
            },
            None => {},
        }
        proof {
            if k < text@.len() {
                let tail = lines_spec(text@.skip(k + 1));
                assert(rest_lines.skip(1) =~= tail);
                assert(directives_of_lines(rest_lines) == match parse_line_spec(line@) {
                    Option::None => directives_of_lines(tail),
                    Some(d) => seq![d] + directives_of_lines(tail),
                });
                assert(text_directives(text@) =~= dirs_view(out@) + directives_of_lines(tail));
            } else {
                assert(rest_lines.skip(1) =~= Seq::<Seq<u8>>::empty());
                assert(directives_of_lines(rest_lines) == match parse_line_spec(line@) {
                    Option::None => directives_of_lines(Seq::<Seq<u8>>::empty()),
                    Some(d) => seq![d] + directives_of_lines(Seq::<Seq<u8>>::empty()),
                });
                assert(directives_of_lines(Seq::<Seq<u8>>::empty()) =~= Seq::<(
                    IncludeKind,
                    Seq<u8>,
                )>::empty());
                assert(text_directives(text@) =~= dirs_view(out@));
            }
        }
        if k == text.len() {
            break ;
        }
        start = k + 1;
    }
    out
}

/// `m` after recording, under each quoted token of `ds`, the path `p`.
pub open spec fn add_quoted(
    m: Map<Seq<u8>, Set<Seq<u8>>>,
    ds: Seq<(IncludeKind, Seq<u8>)>,
    p: Seq<u8>,
) -> Map<Seq<u8>, Set<Seq<u8>>>
    decreases ds.len(),
{
    if ds.len() == 0 {
        m
    } else {
        let m2 = if ds[0].0 == IncludeKind::Quoted {
            map_add(m, ds[0].1, p)
        } else {
            m
        };
        add_quoted(m2, ds.skip(1), p)
    }
}

/// Records `path` under every quoted token of `text`: the mapping sends
/// each token (the included name) to the set of files that name it.
pub fn map_quoted_tokens(mapping: &mut IncludeMapping, text: &Vec<u8>, path: &Vec<u8>)
    requires
        old(mapping).wf(),
    ensures
        final(mapping).wf(),
        final(mapping)@ == add_quoted(old(mapping)@, text_directives(text@), path@),
{
    let ds = scan_directives(text);
    let ghost all = text_directives(text@);
    let mut i: usize = 0;
    proof {
        assert(all.skip(0) =~= all);
    }
    while i < ds.len()
        invariant
            0 <= i <= ds@.len(),
            dirs_view(ds@) == all,
            mapping.wf(),
            add_quoted(old(mapping)@, all, path@) == add_quoted(mapping@, all.skip(i as int), path@),
        decreases ds@.len() - i,
    {
        proof {
            assert(all.skip(i as int)[0] == all[i as int]);
            assert(all.skip(i as int).skip(1) =~= all.skip(i + 1));
            assert(all[i as int] == (ds@[i as int].0, ds@[i as int].1@));
        }
        let quoted = matches!(ds[i].0, IncludeKind::Quoted);
        if quoted {
            let token = ds[i].1.clone();
            let p2 = path.clone();
            proof {
                assert(token@ == ds@[i as int].1@);
                assert(p2@ == path@);
            }
            mapping.insert(token, p2);
        }
        i = i + 1;
    }
    proof {
        assert(all.skip(all.len() as int) =~= Seq::<(IncludeKind, Seq<u8>)>::empty());
    }
}

/// Parses one line for a quoted token alone, passing over angled tokens
/// and malformed lines alike.
pub fn parse_include_path(line: &Vec<u8>) -> (r: Option<Vec<u8>>)
    ensures
        match r {
            Some(t) => parse_line_spec(line@) == Some((IncludeKind::Quoted, t@)),
            Option::None => forall|t: Seq<u8>|
                parse_line_spec(line@) != Some((IncludeKind::Quoted, t)),
        },
{
    match parse_directive(line) {
        Some(p) => {
            match p.0 {
                IncludeKind::Quoted => Some(p.1),
                IncludeKind::Angled => None,
            }
        },
        None => None,
    }
}

} // verus!
