//! Rules R7 and R8 checked on operator-call source text such as
//! `x = W(bank="stft", edge="reflect")(x)`.
use vstd::prelude::*;
use crate::text::{chars_of, string_of};

verus! {

/// Options of the text checks.
#[derive(Clone, Copy, Debug, Default)]
pub struct LintConfig {
    /// Accept `edge="zero"`.
    pub allow_zero_pad: bool,
}

/// A rule that the source text breaks.
pub enum DslLintError {
    /// R7: a window uses zero padding at its edges.
    ZeroEdge,
    /// R7: a window names an edge mode other than reflect or Toeplitz.
    InvalidEdge(String),
    /// R8: a downsample gives a factor but no anti-alias filter; the call's
    /// arguments, trimmed.
    MissingAntiAlias(String),
}

pub enum DErr {
    ZeroEdge,
    InvalidEdge(Seq<char>),
    MissingAntiAlias(Seq<char>),
}

impl View for DslLintError {
    type V = DErr;

    open spec fn view(&self) -> DErr {
        match self {
            DslLintError::ZeroEdge => DErr::ZeroEdge,
            DslLintError::InvalidEdge(s) => DErr::InvalidEdge(s@),
            DslLintError::MissingAntiAlias(s) => DErr::MissingAntiAlias(s@),
        }
    }
}

pub open spec fn dsl_view(r: Result<(), DslLintError>) -> Result<(), DErr> {
    match r {
        Ok(()) => Ok(()),
        Err(e) => Err(e@),
    }
}

/// Unicode white space, as `char::is_whitespace` documents it.
pub open spec fn is_ws(c: char) -> bool {
    c == ' ' || ('\u{9}' <= c && c <= '\u{d}') || c == '\u{85}' || c == '\u{a0}' || c == '\u{1680}'
        || ('\u{2000}' <= c && c <= '\u{200a}') || c == '\u{2028}' || c == '\u{2029}' || c
        == '\u{202f}' || c == '\u{205f}' || c == '\u{3000}'
}

pub fn is_ws_char(c: char) -> (r: bool)
    ensures
        r == is_ws(c),
{
    c == ' ' || ('\u{9}' <= c && c <= '\u{d}') || c == '\u{85}' || c == '\u{a0}' || c == '\u{1680}'
        || ('\u{2000}' <= c && c <= '\u{200a}') || c == '\u{2028}' || c == '\u{2029}' || c
        == '\u{202f}' || c == '\u{205f}' || c == '\u{3000}'
}

pub open spec fn trim_start(s: Seq<char>) -> Seq<char>
    decreases s.len(),
{
    if s.len() > 0 && is_ws(s[0]) {
        trim_start(s.drop_first())
    } else {
        s
    }
}

pub open spec fn trim_end(s: Seq<char>) -> Seq<char>
    decreases s.len(),
{
    if s.len() > 0 && is_ws(s.last()) {
        trim_end(s.drop_last())
    } else {
        s
    }
}

/// `s` without white space at either end.
pub open spec fn trim(s: Seq<char>) -> Seq<char> {
    trim_end(trim_start(s))
}

/// `s` up to its first `//`.
pub open spec fn before_comment(s: Seq<char>) -> Seq<char>
    decreases s.len(),
{
    if s.len() < 2 {
        s
    } else if s[0] == '/' && s[1] == '/' {
        Seq::empty()
    } else {
        seq![s[0]] + before_comment(s.drop_first())
    }
}

/// The position of the first line feed, or -1.
pub open spec fn nl_index(s: Seq<char>) -> int
    decreases s.len(),
{
    if s.len() == 0 {
        -1
    } else if s[0] == '\n' {
        0
    } else {
        let k = nl_index(s.drop_first());
        if k < 0 {
            -1
        } else {
            k + 1
        }
    }
}

pub open spec fn strip_cr(l: Seq<char>) -> Seq<char> {
    if l.len() > 0 && l.last() == '\r' {
        l.drop_last()
    } else {
        l
    }
}

/// The lines of a text as `str::lines` gives them: split at `\n` or `\r\n`,
/// the last line ending optional.
pub open spec fn lines(s: Seq<char>) -> Seq<Seq<char>>
    decreases s.len(),
{
    if s.len() == 0 {
        Seq::empty()
    } else {
        let k = nl_index(s);
        if k < 0 || k >= s.len() {
            seq![s]
        } else {
            seq![strip_cr(s.subrange(0, k))] + lines(s.subrange(k + 1, s.len() as int))
        }
    }
}

pub open spec fn join_lines(ls: Seq<Seq<char>>) -> Seq<char>
    decreases ls.len(),
{
    if ls.len() == 0 {
        Seq::empty()
    } else if ls.len() == 1 {
        ls[0]
    } else {
        join_lines(ls.drop_last()) + seq!['\n'] + ls.last()
    }
}

/// The text with every `//` comment removed, lines joined by `\n`.
pub open spec fn strip_comments_spec(s: Seq<char>) -> Seq<char> {
    join_lines(lines(s).map_values(|l: Seq<char>| before_comment(l)))
}

/// `pat` stands in `s` at position `i`.
pub open spec fn matches_at(s: Seq<char>, i: int, pat: Seq<char>) -> bool {
    0 <= i && i + pat.len() <= s.len() && s.subrange(i, i + pat.len()) == pat
}

/// The position of the parenthesis that closes a call, scanning from `j` with
/// `depth` parentheses open, quotes respected.
pub open spec fn close_at(s: Seq<char>, j: int, depth: int, in_s: bool, in_d: bool) -> Option<int>
    decreases s.len() - j,
{
    if j < 0 || j >= s.len() {
        None
    } else {
        let c = s[j];
        if c == '\'' && !in_d {
            close_at(s, j + 1, depth, !in_s, in_d)
        } else if c == '"' && !in_s {
            close_at(s, j + 1, depth, in_s, !in_d)
        } else if c == '(' && !in_s && !in_d {
            close_at(s, j + 1, depth + 1, in_s, in_d)
        } else if c == ')' && !in_s && !in_d {
            if depth - 1 == 0 {
                Some(j)
            } else {
                close_at(s, j + 1, depth - 1, in_s, in_d)
            }
        } else {
            close_at(s, j + 1, depth, in_s, in_d)
        }
    }
}

/// The argument texts of the calls `op(...)` from position `i` on. After a
/// call the scan resumes two characters past its closing parenthesis.
pub open spec fn sections_from(s: Seq<char>, pat: Seq<char>, i: int) -> Seq<Seq<char>>
    decreases s.len() - i,
{
    if i < 0 || i >= s.len() {
        Seq::empty()
    } else if matches_at(s, i, pat) {
        match close_at(s, i + pat.len(), 1, false, false) {
            Some(j) => {
                let n = if j + 2 > i {
                    j + 2
                } else {
                    i + 1
                };
                if n >= s.len() {
                    seq![s.subrange(i + pat.len(), j)]
                } else {
                    seq![s.subrange(i + pat.len(), j)] + sections_from(s, pat, n)
                }
            },
            None => sections_from(s, pat, i + 1),
        }
    } else {
        sections_from(s, pat, i + 1)
    }
}

/// The argument texts of every call `op(...)` in `s`.
pub open spec fn sections(s: Seq<char>, op: Seq<char>) -> Seq<Seq<char>> {
    sections_from(s, op.push('('), 0)
}

pub open spec fn skip_ws(s: Seq<char>, j: int) -> int
    decreases s.len() - j,
{
    if 0 <= j < s.len() && is_ws(s[j]) {
        skip_ws(s, j + 1)
    } else {
        j
    }
}

/// Where a value ends: at the first comma outside quotes, or at the end.
pub open spec fn value_end(s: Seq<char>, i: int, in_s: bool, in_d: bool) -> int
    decreases s.len() - i,
{
    if i < 0 || i >= s.len() {
        if i < 0 { 0 } else { s.len() as int }
    } else {
        let c = s[i];
        if c == '\'' && !in_d {
            value_end(s, i + 1, !in_s, in_d)
        } else if c == '"' && !in_s {
            value_end(s, i + 1, in_s, !in_d)
        } else if c == ',' && !in_s && !in_d {
            i
        } else {
            value_end(s, i + 1, in_s, in_d)
        }
    }
}

/// The span of the value in `key <spaces> sep value`, the key outside quotes,
/// scanning from position `i`.
pub open spec fn span_from(s: Seq<char>, key: Seq<char>, sep: char, i: int, in_s: bool, in_d: bool) -> Option<(int, int)>
    decreases s.len() - i,
{
    if i < 0 || i >= s.len() {
        None
    } else {
        let c = s[i];
        if c == '\'' && !in_d {
            span_from(s, key, sep, i + 1, !in_s, in_d)
        } else if c == '"' && !in_s {
            span_from(s, key, sep, i + 1, in_s, !in_d)
        } else if !in_s && !in_d && matches_at(s, i, key) && skip_ws(s, i + key.len()) < s.len()
            && s[skip_ws(s, i + key.len())] == sep {
            let v = skip_ws(s, i + key.len()) + 1;
            Some((v, value_end(s, v, false, false)))
        } else {
            span_from(s, key, sep, i + 1, in_s, in_d)
        }
    }
}

pub open spec fn value_span(s: Seq<char>, key: Seq<char>, sep: char) -> Option<(int, int)> {
    span_from(s, key, sep, 0, false, false)
}

/// `s` trimmed, and without one pair of matching quotes around it.
pub open spec fn unquote_spec(s: Seq<char>) -> Seq<char> {
    let t = trim(s);
    if t.len() >= 2 && ((t[0] == '"' && t.last() == '"') || (t[0] == '\'' && t.last() == '\'')) {
        t.subrange(1, t.len() - 1)
    } else {
        t
    }
}

/// R7 on the arguments of one window call.
pub open spec fn r7_args(args: Seq<char>, allow_zero: bool) -> Result<(), DErr> {
    match value_span(args, "edge"@, '=') {
        None => Ok(()),
        Some(sp) => {
            let v = unquote_spec(args.subrange(sp.0, sp.1));
            if v == "zero"@ && !allow_zero {
                Err(DErr::ZeroEdge)
            } else if !(v == "reflect"@ || v == "Toeplitz"@ || v == "zero"@) {
                Err(DErr::InvalidEdge(v))
            } else {
                Ok(())
            }
        },
    }
}

/// R8 on the arguments of one downsample call.
pub open spec fn r8_args(args: Seq<char>) -> Result<(), DErr> {
    let has_lambda = value_span(args, "λ"@, '=') is Some || value_span(args, "lambda"@, '=') is Some;
    let has_aa = value_span(args, "aa"@, '=') is Some || value_span(args, "aa"@, ':') is Some;
    if has_lambda && !has_aa {
        Err(DErr::MissingAntiAlias(trim(args)))
    } else {
        Ok(())
    }
}

pub open spec fn r7_all(secs: Seq<Seq<char>>, allow_zero: bool) -> Result<(), DErr>
    decreases secs.len(),
{
    if secs.len() == 0 {
        Ok(())
    } else {
        match r7_args(secs[0], allow_zero) {
            Err(e) => Err(e),
            Ok(()) => r7_all(secs.drop_first(), allow_zero),
        }
    }
}

pub open spec fn r8_all(secs: Seq<Seq<char>>) -> Result<(), DErr>
    decreases secs.len(),
{
    if secs.len() == 0 {
        Ok(())
    } else {
        match r8_args(secs[0]) {
            Err(e) => Err(e),
            Ok(()) => r8_all(secs.drop_first()),
        }
    }
}

/// R7 over a text, the first failing call reported.
pub open spec fn check_r7_spec(code: Seq<char>, allow_zero: bool) -> Result<(), DErr> {
    r7_all(sections(code, "W"@), allow_zero)
}

/// R8 over a text, the first failing call reported.
pub open spec fn check_r8_spec(code: Seq<char>) -> Result<(), DErr> {
    r8_all(sections(code, "D"@))
}

/// Both text rules, on the text without its comments, with default options.
pub open spec fn all_spec(src: Seq<char>) -> Result<(), DErr> {
    let code = strip_comments_spec(src);
    match check_r7_spec(code, false) {
        Err(e) => Err(e),
        Ok(()) => check_r8_spec(code),
    }
}

pub(crate) fn slice_of(s: &[char], a: usize, b: usize) -> (r: Vec<char>)
    requires
        a <= b <= s@.len(),
    ensures
        r@ == s@.subrange(a as int, b as int),
{
    let mut v: Vec<char> = Vec::new();
    let mut i = a;
    while i < b
        invariant
            a <= i <= b,
            b <= s@.len(),
            v@ == s@.subrange(a as int, i as int),
        decreases b - i,
    {
        v.push(s[i]);
        assert(s@.subrange(a as int, i + 1) =~= s@.subrange(a as int, i as int).push(s@[i as int]));
        i += 1;
    }
    v
}

/// The line up to its first `//`.
fn cut_comment(l: &[char]) -> (r: Vec<char>)
    ensures
        r@ == before_comment(l@),
{
    let mut i: usize = 0;
    assert(l@.subrange(0, 0) + l@.subrange(0, l@.len() as int) =~= l@);
    while i < l.len() && l.len() - i >= 2 && !(l[i] == '/' && l[i + 1] == '/')
        invariant
            i <= l@.len(),
            before_comment(l@) == l@.subrange(0, i as int) + before_comment(
                l@.subrange(i as int, l@.len() as int),
            ),
        decreases l@.len() - i,
    {
        let ghost t = l@.subrange(i as int, l@.len() as int);
        assert(t.drop_first() =~= l@.subrange(i + 1, l@.len() as int));
        assert(l@.subrange(0, i + 1) =~= l@.subrange(0, i as int) + seq![t[0]]);
        i += 1;
    }
    if i < l.len() && l.len() - i >= 2 {
        slice_of(l, 0, i)
    } else {
        let ghost t = l@.subrange(i as int, l@.len() as int);
        assert(l@.subrange(0, i as int) + t =~= l@);
        slice_of(l, 0, l.len())
    }
}

/// The position of the next line feed at or after `pos`.
fn find_nl(s: &[char], pos: usize) -> (r: Option<usize>)
    requires
        pos <= s@.len(),
    ensures
        match r {
            Some(k) => pos <= k < s@.len() && nl_index(s@.subrange(pos as int, s@.len() as int)) == k
                - pos,
            None => nl_index(s@.subrange(pos as int, s@.len() as int)) == -1,
        },
{
    let mut i = pos;
    while i < s.len() && s[i] != '\n'
        invariant
            pos <= i <= s@.len(),
            nl_index(s@.subrange(pos as int, s@.len() as int)) == if nl_index(
                s@.subrange(i as int, s@.len() as int),
            ) < 0 {
                -1
            } else {
                nl_index(s@.subrange(i as int, s@.len() as int)) + (i - pos)
            },
        decreases s@.len() - i,
    {
        let ghost t = s@.subrange(i as int, s@.len() as int);
        assert(t.drop_first() =~= s@.subrange(i + 1, s@.len() as int));
        i += 1;
    }
    if i < s.len() {
        Some(i)
    } else {
        None
    }
}

proof fn lemma_join_push(ls: Seq<Seq<char>>, x: Seq<char>)
    ensures
        join_lines(ls.push(x)) == if ls.len() == 0 {
            x
        } else {
            join_lines(ls) + seq!['\n'] + x
        },
{
    assert(ls.push(x).drop_last() =~= ls);
}

/// The text with every `//` comment removed, lines joined by `\n`.
pub fn strip_line_comments(src: &[char]) -> (r: Vec<char>)
    ensures
        r@ == strip_comments_spec(src@),
{
    let ghost f = |l: Seq<char>| before_comment(l);
    let ghost mut done: Seq<Seq<char>> = Seq::empty();
    let mut out: Vec<char> = Vec::new();
    let mut pos: usize = 0;
    assert(src@.subrange(0, src@.len() as int) =~= src@);
    assert(done + lines(src@) =~= lines(src@));
    while pos < src.len()
        invariant
            pos <= src@.len(),
            lines(src@) == done + lines(src@.subrange(pos as int, src@.len() as int)),
            out@ == join_lines(done.map_values(f)),
            f == (|l: Seq<char>| before_comment(l)),
            (pos == 0) == (done.len() == 0),
        decreases src@.len() - pos,
    {
        let ghost t = src@.subrange(pos as int, src@.len() as int);
        let (line, next) = match find_nl(src, pos) {
            Some(k) => {
                let end = if k > pos && src[k - 1] == '\r' {
                    k - 1
                } else {
                    k
                };
                proof {
                    assert(t.subrange(0, k - pos) =~= src@.subrange(pos as int, k as int));
                    assert(t.subrange(k - pos + 1, t.len() as int) =~= src@.subrange(
                        k + 1,
                        src@.len() as int,
                    ));
                    assert(strip_cr(t.subrange(0, k - pos)) =~= src@.subrange(pos as int, end as int));
                }
                (slice_of(src, pos, end), k + 1)
            },
            None => {
                proof {
                    assert(src@.subrange(src@.len() as int, src@.len() as int) =~= Seq::<char>::empty());
                }
                (slice_of(src, pos, src.len()), src.len())
            },
        };
        let cut = cut_comment(line.as_slice());
        let ghost old_done = done;
        proof {
            done = done.push(line@);
            assert(lines(t) == seq![line@] + lines(src@.subrange(next as int, src@.len() as int)));
            assert(lines(src@) =~= done + lines(src@.subrange(next as int, src@.len() as int)));
            assert(done.map_values(f) =~= old_done.map_values(f).push(cut@));
            lemma_join_push(old_done.map_values(f), cut@);
        }
        if pos > 0 {
            out.push('\n');
        }
        let mut j: usize = 0;
        let ghost base = out@;
        while j < cut.len()
            invariant
                j <= cut@.len(),
                out@ == base + cut@.subrange(0, j as int),
            decreases cut@.len() - j,
        {
            out.push(cut[j]);
            assert(cut@.subrange(0, j + 1) =~= cut@.subrange(0, j as int).push(cut@[j as int]));
            j += 1;
        }
        proof {
            assert(cut@.subrange(0, cut@.len() as int) =~= cut@);
            if pos > 0 {
                assert(old_done.len() > 0);
            } else {
                assert(old_done.len() == 0);
            }
            assert(out@ =~= join_lines(done.map_values(f)));
        }
        pos = next;
    }
    proof {
        assert(src@.subrange(pos as int, src@.len() as int) =~= Seq::<char>::empty());
        assert(done + Seq::<Seq<char>>::empty() =~= done);
    }
    out
}

/// The closing parenthesis of a call whose arguments start at `start`.
fn close_paren(s: &[char], start: usize) -> (r: Option<usize>)
    requires
        start <= s@.len(),
    ensures
        match r {
            Some(j) => close_at(s@, start as int, 1, false, false) == Some(j as int) && start <= j
                < s@.len(),
            None => close_at(s@, start as int, 1, false, false) is None,
        },
{
    let mut depth: u128 = 1;
    let mut in_s = false;
    let mut in_d = false;
    let mut j = start;
    while j < s.len()
        invariant
            start <= j <= s@.len(),
            1 <= depth <= 1 + (j - start),
            close_at(s@, start as int, 1, false, false) == close_at(s@, j as int, depth as int, in_s, in_d),
        decreases s@.len() - j,
    {
        let c = s[j];
        if c == '\'' && !in_d {
            in_s = !in_s;
        } else if c == '"' && !in_s {
            in_d = !in_d;
        } else if c == '(' && !in_s && !in_d {
            depth = depth + 1;
        } else if c == ')' && !in_s && !in_d {
            if depth - 1 == 0 {
                return Some(j);
            }
            depth = depth - 1;
        }
        j += 1;
    }
    None
}

fn matches_at_of(s: &[char], i: usize, pat: &[char]) -> (r: bool)
    ensures
        r == matches_at(s@, i as int, pat@),
{
    if i > s.len() || pat.len() > s.len() - i {
        return false;
    }
    let mut k: usize = 0;
    while k < pat.len()
        invariant
            i + pat@.len() <= s@.len(),
            k <= pat@.len(),
            s@.subrange(i as int, i + k) == pat@.subrange(0, k as int),
        decreases pat@.len() - k,
    {
        let n = s.len();
        assert(i + k < n);
        if s[i + k] != pat[k] {
            assert(s@.subrange(i as int, i + pat@.len())[k as int] != pat@[k as int]);
            return false;
        }
        assert(s@.subrange(i as int, i + k + 1) =~= s@.subrange(i as int, i + k).push(s@[i + k]));
        assert(pat@.subrange(0, k + 1) =~= pat@.subrange(0, k as int).push(pat@[k as int]));
        k += 1;
    }
    assert(pat@.subrange(0, pat@.len() as int) =~= pat@);
    true
}

/// The argument texts of every call `op(...)` in `code`.
pub fn find_sections(code: &[char], op: &str) -> (r: Vec<Vec<char>>)
    ensures
        r@.map_values(|v: Vec<char>| v@) == sections(code@, op@),
{
    let mut pat = chars_of(op);
    pat.push('(');
    let ghost p = pat@;
    let mut out: Vec<Vec<char>> = Vec::new();
    let mut i: usize = 0;
    assert(out@.map_values(|v: Vec<char>| v@) + sections_from(code@, p, 0) =~= sections_from(code@, p, 0));
    while i < code.len()
        invariant
            p == pat@,
            p == op@.push('('),
            sections_from(code@, p, 0) == out@.map_values(|v: Vec<char>| v@) + sections_from(code@, p, i as int),
        decreases code@.len() - i,
    {
        let ghost before = out@.map_values(|v: Vec<char>| v@);
        if matches_at_of(code, i, pat.as_slice()) {
            match close_paren(code, i + pat.len()) {
                Some(j) => {
                    let args = slice_of(code, i + pat.len(), j);
                    out.push(args);
                    proof {
                        assert(out@.map_values(|v: Vec<char>| v@) =~= before.push(args@));
                        let n: int = if j + 2 > i { j + 2 } else { i + 1 };
                        if n >= code@.len() {
                            assert(sections_from(code@, p, n) =~= Seq::<Seq<char>>::empty());
                        }
                        assert(sections_from(code@, p, i as int) =~= seq![args@] + sections_from(code@, p, n));
                    }
                    if code.len() - j <= 2 {
                        i = code.len();
                    } else {
                        i = j + 2;
                    }
                },
                None => {
                    i += 1;
                },
            }
        } else {
            i += 1;
        }
    }
    assert(sections_from(code@, p, i as int) =~= Seq::<Seq<char>>::empty());
    out
}

fn skip_ws_of(s: &[char], j: usize) -> (r: usize)
    requires
        j <= s@.len(),
    ensures
        r as int == skip_ws(s@, j as int),
        j <= r <= s@.len(),
{
    let mut k = j;
    while k < s.len() && is_ws_char(s[k])
        invariant
            j <= k <= s@.len(),
            skip_ws(s@, j as int) == skip_ws(s@, k as int),
        decreases s@.len() - k,
    {
        k += 1;
    }
    k
}

/// Where the value that starts at `i` ends: at the first comma outside quotes,
/// or at the end.
pub fn find_value_end(args: &[char], i: usize) -> (r: usize)
    requires
        i <= args@.len(),
    ensures
        r as int == value_end(args@, i as int, false, false),
        i <= r <= args@.len(),
{
    let mut k = i;
    let mut in_s = false;
    let mut in_d = false;
    while k < args.len()
        invariant
            i <= k <= args@.len(),
            value_end(args@, i as int, false, false) == value_end(args@, k as int, in_s, in_d),
        decreases args@.len() - k,
    {
        let c = args[k];
        if c == '\'' && !in_d {
            in_s = !in_s;
        } else if c == '"' && !in_s {
            in_d = !in_d;
        } else if c == ',' && !in_s && !in_d {
            return k;
        }
        k += 1;
    }
    k
}

/// The span of the value in `key <spaces> sep value`, the key outside quotes.
pub fn find_value_span(args: &[char], key: &str, sep: char) -> (r: Option<(usize, usize)>)
    ensures
        match r {
            Some(sp) => value_span(args@, key@, sep) == Some((sp.0 as int, sp.1 as int)) && sp.0
                <= sp.1 <= args@.len(),
            None => value_span(args@, key@, sep) is None,
        },
{
    let kc = chars_of(key);
    let mut in_s = false;
    let mut in_d = false;
    let mut i: usize = 0;
    while i < args.len()
        invariant
            kc@ == key@,
            i <= args@.len(),
            value_span(args@, key@, sep) == span_from(args@, key@, sep, i as int, in_s, in_d),
        decreases args@.len() - i,
    {
        let c = args[i];
        if c == '\'' && !in_d {
            in_s = !in_s;
        } else if c == '"' && !in_s {
            in_d = !in_d;
        } else if !in_s && !in_d && matches_at_of(args, i, kc.as_slice()) {
            let j = skip_ws_of(args, i + kc.len());
            if j < args.len() && args[j] == sep {
                let e = find_value_end(args, j + 1);
                return Some((j + 1, e));
            }
        }
        i += 1;
    }
    None
}

pub fn trim_chars(s: &[char]) -> (r: Vec<char>)
    ensures
        r@ == trim(s@),
{
    let mut a: usize = 0;
    assert(s@.subrange(0, s@.len() as int) =~= s@);
    while a < s.len() && is_ws_char(s[a])
        invariant
            a <= s@.len(),
            trim_start(s@) == trim_start(s@.subrange(a as int, s@.len() as int)),
        decreases s@.len() - a,
    {
        assert(s@.subrange(a as int, s@.len() as int).drop_first() =~= s@.subrange(a + 1, s@.len() as int));
        a += 1;
    }
    let ghost t = s@.subrange(a as int, s@.len() as int);
    assert(trim_start(t) == t);
    let mut b: usize = s.len();
    assert(t.subrange(0, t.len() as int) =~= t);
    while b > a && is_ws_char(s[b - 1])
        invariant
            a <= b <= s@.len(),
            t == s@.subrange(a as int, s@.len() as int),
            trim_end(t) == trim_end(s@.subrange(a as int, b as int)),
        decreases b,
    {
        assert(s@.subrange(a as int, b as int).drop_last() =~= s@.subrange(a as int, b - 1));
        b -= 1;
    }
    slice_of(s, a, b)
}

/// `s` trimmed, and without one pair of matching quotes around it.
pub fn unquote(s: &[char]) -> (r: Vec<char>)
    ensures
        r@ == unquote_spec(s@),
{
    let t = trim_chars(s);
    let n = t.len();
    if n >= 2 && ((t[0] == '"' && t[n - 1] == '"') || (t[0] == '\'' && t[n - 1] == '\'')) {
        slice_of(t.as_slice(), 1, n - 1)
    } else {
        t
    }
}

fn r7_args_of(args: &[char], cfg: LintConfig) -> (r: Result<(), DslLintError>)
    ensures
        dsl_view(r) == r7_args(args@, cfg.allow_zero_pad),
{
    match find_value_span(args, "edge", '=') {
        None => Ok(()),
        Some((a, b)) => {
            let raw = slice_of(args, a, b);
            let v = unquote(raw.as_slice());
            let zero = crate::text::str_eq(v.as_slice(), "zero");
            if zero && !cfg.allow_zero_pad {
                Err(DslLintError::ZeroEdge)
            } else if !(crate::text::str_eq(v.as_slice(), "reflect") || crate::text::str_eq(
                v.as_slice(),
                "Toeplitz",
            ) || zero) {
                Err(DslLintError::InvalidEdge(string_of(v.as_slice())))
            } else {
                Ok(())
            }
        },
    }
}

fn r8_args_of(args: &[char]) -> (r: Result<(), DslLintError>)
    ensures
        dsl_view(r) == r8_args(args@),
{
    let has_lambda = find_value_span(args, "λ", '=').is_some() || find_value_span(
        args,
        "lambda",
        '=',
    ).is_some();
    let has_aa = find_value_span(args, "aa", '=').is_some() || find_value_span(args, "aa", ':').is_some();
    if has_lambda && !has_aa {
        let t = trim_chars(args);
        Err(DslLintError::MissingAntiAlias(string_of(t.as_slice())))
    } else {
        Ok(())
    }
}

/// R7 on a text: every `edge=` of a window call is reflect or Toeplitz; zero
/// only where the options allow it.
pub fn check_r7(code: &[char], cfg: LintConfig) -> (r: Result<(), DslLintError>)
    ensures
        dsl_view(r) == check_r7_spec(code@, cfg.allow_zero_pad),
{
    let secs = find_sections(code, "W");
    let ghost sv = secs@.map_values(|v: Vec<char>| v@);
    let mut i: usize = 0;
    assert(sv.subrange(0, sv.len() as int) =~= sv);
    while i < secs.len()
        invariant
            sv == secs@.map_values(|v: Vec<char>| v@),
            sv == sections(code@, "W"@),
            i <= secs@.len(),
            check_r7_spec(code@, cfg.allow_zero_pad) == r7_all(sv.subrange(i as int, sv.len() as int), cfg.allow_zero_pad),
        decreases secs@.len() - i,
    {
        let ghost rest = sv.subrange(i as int, sv.len() as int);
        assert(rest[0] == secs@[i as int]@);
        assert(rest.drop_first() =~= sv.subrange(i + 1, sv.len() as int));
        match r7_args_of(secs[i].as_slice(), cfg) {
            Err(e) => return Err(e),
            Ok(()) => {},
        }
        i += 1;
    }
    Ok(())
}

/// R8 on a text: a downsample call that gives `λ=` or `lambda=` also gives
/// `aa=` or `aa:`.
pub fn check_r8(code: &[char]) -> (r: Result<(), DslLintError>)
    ensures
        dsl_view(r) == check_r8_spec(code@),
{
    let secs = find_sections(code, "D");
    let ghost sv = secs@.map_values(|v: Vec<char>| v@);
    let mut i: usize = 0;
    assert(sv.subrange(0, sv.len() as int) =~= sv);
    while i < secs.len()
        invariant
            sv == secs@.map_values(|v: Vec<char>| v@),
            sv == sections(code@, "D"@),
            i <= secs@.len(),
            check_r8_spec(code@) == r8_all(sv.subrange(i as int, sv.len() as int)),
        decreases secs@.len() - i,
    {
        let ghost rest = sv.subrange(i as int, sv.len() as int);
        assert(rest[0] == secs@[i as int]@);
        assert(rest.drop_first() =~= sv.subrange(i + 1, sv.len() as int));
        match r8_args_of(secs[i].as_slice()) {
            Err(e) => return Err(e),
            Ok(()) => {},
        }
        i += 1;
    }
    Ok(())
}

/// Both text rules on `src` without its comments, with default options.
pub fn all(src: &str) -> (r: Result<(), DslLintError>)
    ensures
        dsl_view(r) == all_spec(src@),
{
    let chars = chars_of(src);
    let code = strip_line_comments(chars.as_slice());
    let cfg = LintConfig { allow_zero_pad: false };
    match check_r7(code.as_slice(), cfg) {
        Err(e) => return Err(e),
        Ok(()) => {},
    }
    check_r8(code.as_slice())
}

} // verus!
