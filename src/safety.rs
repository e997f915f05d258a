//! Safety checks on raw operator-call text, by regular expressions: R7 edge
//! padding, R8 anti-aliasing before downsampling, and amplitude after alignment.
use vstd::prelude::*;
use vstd::string::StringExecFns;
use crate::text::{chars_of, lower_vec, str_eq, lower_seq};

verus! {

/// Whether the `regex` pattern `p` compiles, read case-insensitively where `ci`.
pub uninterp spec fn re_compiles(p: Seq<char>, ci: bool) -> bool;

/// Whether the compiled pattern `p` matches somewhere in `t`.
pub uninterp spec fn re_is_match(p: Seq<char>, ci: bool, t: Seq<char>) -> bool;

/// The text of group 1 in each successive non-overlapping match of `p` in `t`.
pub uninterp spec fn re_group1(p: Seq<char>, t: Seq<char>) -> Seq<Seq<char>>;

/// The characters that have a meaning in a `regex` pattern.
pub open spec fn is_meta(c: char) -> bool {
    c == '\\' || c == '.' || c == '+' || c == '*' || c == '?' || c == '(' || c == ')' || c == '|'
        || c == '[' || c == ']' || c == '{' || c == '}' || c == '^' || c == '$' || c == '#' || c
        == '&' || c == '-' || c == '~'
}

/// The pattern that matches the text `s` literally: a backslash before each
/// meta character.
pub open spec fn re_escape(s: Seq<char>) -> Seq<char>
    decreases s.len(),
{
    if s.len() == 0 {
        Seq::empty()
    } else {
        re_escape(s.drop_last()) + if is_meta(s.last()) {
            seq!['\\', s.last()]
        } else {
            seq![s.last()]
        }
    }
}

/// Relies on `regex::RegexBuilder::build` and `Regex::is_match`: nothing where
/// the pattern does not compile, else whether it matches somewhere in the text.
#[verifier::external_body]
fn regex_is_match(pat: &str, ci: bool, text: &str) -> (r: Option<bool>)
    ensures
        r is Some <==> re_compiles(pat@, ci),
        r matches Some(b) ==> b == re_is_match(pat@, ci, text@),
{
    match regex::RegexBuilder::new(pat).case_insensitive(ci).build() {
        Ok(re) => Some(re.is_match(text)),
        Err(_) => None,
    }
}

/// Relies on `regex::Regex::new` and `Regex::captures_iter`: nothing where the
/// pattern does not compile, else the text of group 1 of each match in turn.
#[verifier::external_body]
fn regex_group1(pat: &str, text: &str) -> (r: Option<Vec<String>>)
    ensures
        r is Some <==> re_compiles(pat@, false),
        r matches Some(v) ==> v@.map_values(|s: String| s@) == re_group1(pat@, text@),
{
    match regex::Regex::new(pat) {
        Ok(re) => Some(
            re.captures_iter(text).map(|c| c.get(1).map_or(String::new(), |m| m.as_str().to_string())).collect(),
        ),
        Err(_) => None,
    }
}

/// Relies on `regex::escape`: the text with a backslash put before each meta
/// character.
#[verifier::external_body]
fn regex_escape(s: &str) -> (r: String)
    ensures
        r@ == re_escape(s@),
{
    regex::escape(s)
}

/// A safety rule that the text breaks, or a pattern that did not compile.
#[derive(Debug, PartialEq, Eq, Structural)]
pub enum SafetyError {
    ZeroPad,
    InvalidEdge,
    NoAntiAlias,
    AmplitudeAfterAlign,
    Pattern,
}

impl SafetyError {
    /// The report tag of the finding.
    pub fn tag(&self) -> (r: &'static str)
        ensures
            r@ == match self {
                SafetyError::ZeroPad => "Safety:R7-zero-pad"@,
                SafetyError::InvalidEdge => "Safety:R7-invalid-edge"@,
                SafetyError::NoAntiAlias => "Safety:R8-no-aa"@,
                SafetyError::AmplitudeAfterAlign => "Safety:A-after-Align"@,
                SafetyError::Pattern => "Safety:pattern"@,
            },
    {
        match self {
            SafetyError::ZeroPad => "Safety:R7-zero-pad",
            SafetyError::InvalidEdge => "Safety:R7-invalid-edge",
            SafetyError::NoAntiAlias => "Safety:R8-no-aa",
            SafetyError::AmplitudeAfterAlign => "Safety:A-after-Align",
            SafetyError::Pattern => "Safety:pattern",
        }
    }
}

pub open spec fn edge_dq() -> Seq<char> {
    r#"edge\s*=\s*"([^"]+)""#@
}

pub open spec fn edge_sq() -> Seq<char> {
    r#"edge\s*=\s*'([^']+)'"#@
}

pub open spec fn zero_kw() -> Seq<char> {
    r#"\bzero[_-]?pad\b|\bpad_mode\s*=\s*["']zero["']|\bpad\s*=\s*["']zero["']"#@
}

/// An edge value in quotes: zero padding in any letter case is refused, and
/// anything but `reflect`.
pub open spec fn edge_value_check(v: Seq<char>) -> Result<(), SafetyError> {
    let l = lower_seq(v);
    if l == "zero"@ || l == "zeropad"@ || l == "zero_pad"@ {
        Err(SafetyError::ZeroPad)
    } else if v != "reflect"@ {
        Err(SafetyError::InvalidEdge)
    } else {
        Ok(())
    }
}

pub open spec fn edge_values_check(vs: Seq<Seq<char>>) -> Result<(), SafetyError>
    decreases vs.len(),
{
    if vs.len() == 0 {
        Ok(())
    } else {
        match edge_value_check(vs[0]) {
            Err(e) => Err(e),
            Ok(()) => edge_values_check(vs.drop_first()),
        }
    }
}

/// R7 on text: every quoted `edge=` value is `reflect`, and no zero padding is
/// named anywhere.
pub open spec fn check_r7_edges_spec(src: Seq<char>) -> Result<(), SafetyError> {
    if !(re_compiles(edge_dq(), false) && re_compiles(edge_sq(), false) && re_compiles(zero_kw(), true)) {
        Err(SafetyError::Pattern)
    } else {
        match edge_values_check(re_group1(edge_dq(), src)) {
            Err(e) => Err(e),
            Ok(()) => match edge_values_check(re_group1(edge_sq(), src)) {
                Err(e) => Err(e),
                Ok(()) => if re_is_match(zero_kw(), true, src) {
                    Err(SafetyError::ZeroPad)
                } else {
                    Ok(())
                },
            },
        }
    }
}

fn edge_values_check_of(vs: &Vec<String>) -> (r: Result<(), SafetyError>)
    ensures
        r == edge_values_check(vs@.map_values(|s: String| s@)),
{
    let ghost sv = vs@.map_values(|s: String| s@);
    let mut i: usize = 0;
    assert(sv.subrange(0, sv.len() as int) =~= sv);
    while i < vs.len()
        invariant
            sv == vs@.map_values(|s: String| s@),
            i <= vs@.len(),
            edge_values_check(sv) == edge_values_check(sv.subrange(i as int, sv.len() as int)),
        decreases vs@.len() - i,
    {
        let ghost rest = sv.subrange(i as int, sv.len() as int);
        assert(rest.drop_first() =~= sv.subrange(i + 1, sv.len() as int));
        assert(rest[0] == vs@[i as int]@);
        let c = chars_of(vs[i].as_str());
        let l = lower_vec(c.as_slice());
        if str_eq(l.as_slice(), "zero") || str_eq(l.as_slice(), "zeropad") || str_eq(l.as_slice(), "zero_pad") {
            return Err(SafetyError::ZeroPad);
        }
        if !str_eq(c.as_slice(), "reflect") {
            return Err(SafetyError::InvalidEdge);
        }
        i += 1;
    }
    Ok(())
}

/// R7 on text, see `check_r7_edges_spec`.
pub fn check_r7_edges(src: &str) -> (r: Result<(), SafetyError>)
    ensures
        r == check_r7_edges_spec(src@),
{
    let dq = regex_group1(r#"edge\s*=\s*"([^"]+)""#, src);
    let sq = regex_group1(r#"edge\s*=\s*'([^']+)'"#, src);
    let zk = regex_is_match(r#"\bzero[_-]?pad\b|\bpad_mode\s*=\s*["']zero["']|\bpad\s*=\s*["']zero["']"#, true, src);
    match (dq, sq, zk) {
        (Some(dq), Some(sq), Some(zk)) => {
            match edge_values_check_of(&dq) {
                Err(e) => return Err(e),
                Ok(()) => {},
            }
            match edge_values_check_of(&sq) {
                Err(e) => return Err(e),
                Ok(()) => {},
            }
            if zk {
                Err(SafetyError::ZeroPad)
            } else {
                Ok(())
            }
        },
        _ => Err(SafetyError::Pattern),
    }
}

pub open spec fn down_pat() -> Seq<char> {
    r#"\b(?:downsample\d*|down\d*|decimate|d\d*|d)\s*\("#@
}

/// The patterns that each show an anti-alias stage, all read
/// case-insensitively: an `AA(` or `aa(` call, an `A(...)` naming aa,
/// anti-alias, low pass or lpf, a downsample flag `aa=true|1|on|yes`, a filter
/// call, or a window front end.
pub open spec fn aa_pats() -> Seq<Seq<char>> {
    seq![
        r#"\bAA\s*\("#@,
        r#"\baa\s*\("#@,
        r#"\bA\s*\([^)]*\baa\b[^)]*\)"#@,
        r#"\bA\s*\([^)]*\banti[-_ ]?alias\b[^)]*\)"#@,
        r#"\bA\s*\([^)]*\blow\s*pass\b[^)]*\)"#@,
        r#"\bA\s*\([^)]*\blowpass\b[^)]*\)"#@,
        r#"\bA\s*\([^)]*\blpf\b[^)]*\)"#@,
        r#"\b(?:downsample\d*|down\d*|decimate|d\d*|d)\s*\([^)]*\baa\s*=\s*(?:true|1|on|yes)\b"#@,
        r#"\b(?:LPF|LowPass|FIR|IIR|Biquad|Butterworth|Cheby\w*)\s*\("#@,
        r#"\bW\s*\("#@,
    ]
}

/// R8 on text: where a downsample call appears, some anti-alias stage appears
/// too.
pub open spec fn check_r8_aa_spec(src: Seq<char>) -> Result<(), SafetyError> {
    if !re_compiles(down_pat(), true) {
        Err(SafetyError::Pattern)
    } else if !re_is_match(down_pat(), true, src) {
        Ok(())
    } else if !(forall|i: int| 0 <= i < aa_pats().len() ==> #[trigger] re_compiles(aa_pats()[i], true)) {
        Err(SafetyError::Pattern)
    } else if exists|i: int| 0 <= i < aa_pats().len() && #[trigger] re_is_match(aa_pats()[i], true, src) {
        Ok(())
    } else {
        Err(SafetyError::NoAntiAlias)
    }
}

/// R8 on text, see `check_r8_aa_spec`.
pub fn check_r8_aa(src: &str) -> (r: Result<(), SafetyError>)
    ensures
        r == check_r8_aa_spec(src@),
{
    match regex_is_match(r#"\b(?:downsample\d*|down\d*|decimate|d\d*|d)\s*\("#, true, src) {
        None => return Err(SafetyError::Pattern),
        Some(false) => return Ok(()),
        Some(true) => {},
    }
    let pats: Vec<&str> = vec![
        r#"\bAA\s*\("#,
        r#"\baa\s*\("#,
        r#"\bA\s*\([^)]*\baa\b[^)]*\)"#,
        r#"\bA\s*\([^)]*\banti[-_ ]?alias\b[^)]*\)"#,
        r#"\bA\s*\([^)]*\blow\s*pass\b[^)]*\)"#,
        r#"\bA\s*\([^)]*\blowpass\b[^)]*\)"#,
        r#"\bA\s*\([^)]*\blpf\b[^)]*\)"#,
        r#"\b(?:downsample\d*|down\d*|decimate|d\d*|d)\s*\([^)]*\baa\s*=\s*(?:true|1|on|yes)\b"#,
        r#"\b(?:LPF|LowPass|FIR|IIR|Biquad|Butterworth|Cheby\w*)\s*\("#,
        r#"\bW\s*\("#,
    ];
    let ghost ps = aa_pats();
    assert(pats@.map_values(|p: &str| p@) =~= ps);
    let mut any = false;
    let mut i: usize = 0;
    while i < pats.len()
        invariant
            re_compiles(down_pat(), true),
            re_is_match(down_pat(), true, src@),
            ps == aa_pats(),
            pats@.map_values(|p: &str| p@) == ps,
            pats@.len() == ps.len(),
            i <= pats@.len(),
            forall|k: int| 0 <= k < i ==> #[trigger] re_compiles(ps[k], true),
            any == exists|k: int| 0 <= k < i && #[trigger] re_is_match(ps[k], true, src@),
        decreases pats@.len() - i,
    {
        assert(ps[i as int] == pats@[i as int]@);
        match regex_is_match(pats[i], true, src) {
            None => {
                assert(!re_compiles(ps[i as int], true));
                return Err(SafetyError::Pattern);
            },
            Some(m) => {
                if m {
                    assert(re_is_match(ps[i as int], true, src@));
                }
                any = any || m;
            },
        }
        i += 1;
    }
    if any {
        Ok(())
    } else {
        Err(SafetyError::NoAntiAlias)
    }
}

pub open spec fn nested_pat() -> Seq<char> {
    r"A\s*\([^)]*\)\s*\(\s*Align\s*\("@
}

pub open spec fn bind_pat() -> Seq<char> {
    r"(?m)^\s*([A-Za-z_][A-Za-z0-9_]*)\s*=\s*Align\s*\("@
}

/// The pattern of an amplitude call applied to the variable whose escaped
/// name is `v`.
pub open spec fn use_pat(v: Seq<char>) -> Seq<char> {
    r"A\s*\([^)]*\)\s*\(\s*"@ + v + r"\s*\)"@
}

pub open spec fn vars_check(vs: Seq<Seq<char>>, src: Seq<char>) -> Result<(), SafetyError>
    decreases vs.len(),
{
    if vs.len() == 0 {
        Ok(())
    } else {
        let p = use_pat(re_escape(vs[0]));
        if !re_compiles(p, false) {
            Err(SafetyError::Pattern)
        } else if re_is_match(p, false, src) {
            Err(SafetyError::AmplitudeAfterAlign)
        } else {
            vars_check(vs.drop_first(), src)
        }
    }
}

/// No amplitude call takes an alignment's output: neither nested,
/// `A(...)(Align(...`, nor through a variable bound to `Align(...)` at the start
/// of a line.
pub open spec fn check_a_after_align_spec(src: Seq<char>) -> Result<(), SafetyError> {
    if !(re_compiles(nested_pat(), false) && re_compiles(bind_pat(), false)) {
        Err(SafetyError::Pattern)
    } else if re_is_match(nested_pat(), false, src) {
        Err(SafetyError::AmplitudeAfterAlign)
    } else {
        vars_check(re_group1(bind_pat(), src), src)
    }
}

/// Amplitude after alignment on text, see `check_a_after_align_spec`.
pub fn check_a_after_align(src: &str) -> (r: Result<(), SafetyError>)
    ensures
        r == check_a_after_align_spec(src@),
{
    let nested = regex_is_match(r"A\s*\([^)]*\)\s*\(\s*Align\s*\(", false, src);
    let vars = regex_group1(r"(?m)^\s*([A-Za-z_][A-Za-z0-9_]*)\s*=\s*Align\s*\(", src);
    let (nested, vars) = match (nested, vars) {
        (Some(n), Some(v)) => (n, v),
        _ => return Err(SafetyError::Pattern),
    };
    if nested {
        return Err(SafetyError::AmplitudeAfterAlign);
    }
    let ghost sv = vars@.map_values(|s: String| s@);
    let mut i: usize = 0;
    assert(sv.subrange(0, sv.len() as int) =~= sv);
    while i < vars.len()
        invariant
            sv == vars@.map_values(|s: String| s@),
            sv == re_group1(bind_pat(), src@),
            i <= vars@.len(),
            check_a_after_align_spec(src@) == vars_check(sv.subrange(i as int, sv.len() as int), src@),
        decreases vars@.len() - i,
    {
        let ghost rest = sv.subrange(i as int, sv.len() as int);
        assert(rest.drop_first() =~= sv.subrange(i + 1, sv.len() as int));
        assert(rest[0] == vars@[i as int]@);
        let esc = regex_escape(vars[i].as_str());
        let mut p = r"A\s*\([^)]*\)\s*\(\s*".to_owned();
        p.append(esc.as_str());
        p.append(r"\s*\)");
        match regex_is_match(p.as_str(), false, src) {
            None => return Err(SafetyError::Pattern),
            Some(true) => return Err(SafetyError::AmplitudeAfterAlign),
            Some(false) => {},
        }
        i += 1;
    }
    Ok(())
}

} // verus!
