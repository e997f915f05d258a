//! Plain records shared with the surrounding tools, and small rules on them.
use vstd::prelude::*;
use crate::json::{JVal, Json};
use crate::dsl::{is_ws, is_ws_char};
use crate::lint::field;

verus! {

/// How frames are aligned to the first one.
#[derive(Clone, Copy, Debug, PartialEq, Eq, Structural)]
pub enum AlignMode {
    XCorrSoft,
    XCorrHard,
}

/// Settings of the alignment operator: the mode and the largest shift tried.
#[derive(Clone, Copy, Debug)]
pub struct AlignParams {
    pub mode: AlignMode,
    pub radius: usize,
}

impl Default for AlignParams {
    fn default() -> (r: AlignParams)
        ensures
            r.mode == AlignMode::XCorrSoft,
            r.radius == 8,
    {
        AlignParams { mode: AlignMode::XCorrSoft, radius: 8 }
    }
}

/// The invariants that a run certifies.
#[derive(Debug, Default)]
pub struct Cert {
    pub i1_unique_nf: bool,
    pub i2_delta_l_le_0: bool,
    pub i3_conservative_functors: bool,
    pub i4_descent: Option<bool>,
    pub i5_mdl_consistent: Option<bool>,
    pub notes: Option<String>,
}

/// One blob of a container: its name, place, size, digest and codec (0 is raw).
#[derive(Debug)]
pub struct IndexEntry {
    pub name: String,
    pub offset: u64,
    pub size: u64,
    pub sha256: [u8; 32],
    pub codec_id: u16,
}

/// The blobs of a container, in order.
#[derive(Debug, Default)]
pub struct Index {
    pub entries: Vec<IndexEntry>,
}

/// One input of a batch: text read from standard input, or a file's path and
/// text.
pub enum InputItem {
    Stdin(String),
    FilePath(String, String),
}

/// The byte order a header names where it names none.
pub fn default_endianness() -> (r: String)
    ensures
        r@ == "little"@,
{
    "little".to_owned()
}

/// The next multiple of 16 at or after `pos`.
pub fn align16(pos: u64) -> (r: u64)
    requires
        pos <= u64::MAX - 15,
    ensures
        r % 16 == 0,
        pos <= r < pos + 16,
{
    let q = pos / 16;
    if pos % 16 == 0 {
        pos
    } else {
        (q + 1) * 16
    }
}

/// The value at `/a/b` of a report.
pub open spec fn at2(v: JVal, a: Seq<char>, b: Seq<char>) -> Option<JVal> {
    match field(v, a) {
        Some(x) => field(x, b),
        None => None,
    }
}

/// Whether a run report passes: its `/cert/pass`, else its
/// `/metrics/cola_pass`, else its `/w_perf/cola_pass`, the first one present
/// decides (`true` only for the boolean true; the last one also for a value
/// that is not a boolean); a report with none of them passes.
pub open spec fn is_pass_spec(v: JVal) -> bool {
    match at2(v, "cert"@, "pass"@) {
        Some(x) => x == JVal::Bool(true),
        None => match at2(v, "metrics"@, "cola_pass"@) {
            Some(x) => x == JVal::Bool(true),
            None => match at2(v, "w_perf"@, "cola_pass"@) {
                Some(x) => match x {
                    JVal::Bool(b) => b,
                    _ => true,
                },
                None => true,
            },
        },
    }
}

fn at2_of<'a>(v: &'a Json, a: &str, b: &str) -> (r: Option<&'a Json>)
    ensures
        match r {
            Some(x) => at2(v@, a@, b@) == Some(x@),
            None => at2(v@, a@, b@) is None,
        },
{
    match crate::lint::field_of(v, a) {
        Some(x) => crate::lint::field_of(x, b),
        None => None,
    }
}

/// Whether a run report passes, see `is_pass_spec`.
pub fn is_pass(data: &Json) -> (r: bool)
    ensures
        r == is_pass_spec(data@),
{
    match at2_of(data, "cert", "pass") {
        Some(x) => match x {
            Json::Bool(b) => *b,
            _ => false,
        },
        None => match at2_of(data, "metrics", "cola_pass") {
            Some(x) => match x {
                Json::Bool(b) => *b,
                _ => false,
            },
            None => match at2_of(data, "w_perf", "cola_pass") {
                Some(x) => match x {
                    Json::Bool(b) => *b,
                    _ => true,
                },
                None => true,
            },
        },
    }
}

/// The length of the run of characters up to the first white space.
pub open spec fn word_len(s: Seq<char>) -> nat
    decreases s.len(),
{
    if s.len() == 0 || is_ws(s[0]) {
        0
    } else {
        1 + word_len(s.drop_first())
    }
}

/// The white-space separated words of a text, as `str::split_whitespace`
/// gives them.
pub open spec fn words(s: Seq<char>) -> Seq<Seq<char>>
    decreases s.len(),
{
    if s.len() == 0 {
        Seq::empty()
    } else if is_ws(s[0]) {
        words(s.drop_first())
    } else {
        let k = word_len(s);
        if 0 < k <= s.len() {
            seq![s.subrange(0, k as int)] + words(s.subrange(k as int, s.len() as int))
        } else {
            Seq::empty()
        }
    }
}

pub open spec fn is_hex_digit(c: char) -> bool {
    ('0' <= c && c <= '9') || ('a' <= c && c <= 'f') || ('A' <= c && c <= 'F')
}

/// Sixty-four hexadecimal digits.
pub open spec fn is_hex64(t: Seq<char>) -> bool {
    t.len() == 64 && forall|i: int| 0 <= i < 64 ==> #[trigger] is_hex_digit(t[i])
}

/// The NF-ID that a word gives: the word itself, or what follows `NF-ID=`.
pub open spec fn word_id(t: Seq<char>) -> Option<Seq<char>> {
    if is_hex64(t) {
        Some(t)
    } else if t.len() >= 6 && t.subrange(0, 6) == "NF-ID="@ && is_hex64(t.subrange(6, t.len() as int)) {
        Some(t.subrange(6, t.len() as int))
    } else {
        None
    }
}

/// The last NF-ID among the words.
pub open spec fn last_id(ws: Seq<Seq<char>>) -> Option<Seq<char>>
    decreases ws.len(),
{
    if ws.len() == 0 {
        None
    } else {
        match word_id(ws.last()) {
            Some(t) => Some(t),
            None => last_id(ws.drop_last()),
        }
    }
}

fn hex64_of(t: &[char]) -> (r: bool)
    ensures
        r == is_hex64(t@),
{
    if t.len() != 64 {
        return false;
    }
    let mut i: usize = 0;
    while i < 64
        invariant
            t@.len() == 64,
            i <= 64,
            forall|k: int| 0 <= k < i ==> #[trigger] is_hex_digit(t@[k]),
        decreases 64 - i,
    {
        let c = t[i];
        if !(('0' <= c && c <= '9') || ('a' <= c && c <= 'f') || ('A' <= c && c <= 'F')) {
            assert(!is_hex_digit(t@[i as int]));
            return false;
        }
        i += 1;
    }
    true
}

fn word_id_of(t: &[char]) -> (r: Option<Vec<char>>)
    ensures
        match r {
            Some(v) => word_id(t@) == Some(v@),
            None => word_id(t@) is None,
        },
{
    if hex64_of(t) {
        let mut v: Vec<char> = Vec::new();
        let mut i: usize = 0;
        while i < t.len()
            invariant
                i <= t@.len(),
                v@ == t@.subrange(0, i as int),
            decreases t@.len() - i,
        {
            v.push(t[i]);
            assert(t@.subrange(0, i + 1) =~= t@.subrange(0, i as int).push(t@[i as int]));
            i += 1;
        }
        assert(t@.subrange(0, t@.len() as int) =~= t@);
        return Some(v);
    }
    if t.len() >= 6 {
        let head = crate::dsl::slice_of(t, 0, 6);
        let mut rest: Vec<char> = Vec::new();
        let mut i: usize = 6;
        while i < t.len()
            invariant
                6 <= i <= t@.len(),
                rest@ == t@.subrange(6, i as int),
            decreases t@.len() - i,
        {
            rest.push(t[i]);
            assert(t@.subrange(6, i + 1) =~= t@.subrange(6, i as int).push(t@[i as int]));
            i += 1;
        }
        if crate::text::str_eq(head.as_slice(), "NF-ID=") && hex64_of(rest.as_slice()) {
            return Some(rest);
        }
    }
    None
}

/// The NF-ID in a tool's output: the last word of sixty-four hexadecimal
/// digits, alone or after `NF-ID=`.
pub fn parse_nf_id_from_stdout(s: &str) -> (r: Option<String>)
    ensures
        match r {
            Some(id) => last_id(words(s@)) == Some(id@),
            None => last_id(words(s@)) is None,
        },
{
    let c = crate::text::chars_of(s);
    let ghost mut done: Seq<Seq<char>> = Seq::empty();
    let mut cand: Option<Vec<char>> = None;
    let mut i: usize = 0;
    assert(c@.subrange(0, c@.len() as int) =~= c@);
    while i < c.len()
        invariant
            c@ == s@,
            i <= c@.len(),
            words(s@) == done + words(c@.subrange(i as int, c@.len() as int)),
            match cand {
                Some(v) => last_id(done) == Some(v@),
                None => last_id(done) is None,
            },
        decreases c@.len() - i,
    {
        let ghost t = c@.subrange(i as int, c@.len() as int);
        if is_ws_char(c[i]) {
            assert(t.drop_first() =~= c@.subrange(i + 1, c@.len() as int));
            i += 1;
        } else {
            let mut j = i;
            while j < c.len() && !is_ws_char(c[j])
                invariant
                    i <= j <= c@.len(),
                    word_len(t) == (j - i) + word_len(c@.subrange(j as int, c@.len() as int)),
                decreases c@.len() - j,
            {
                assert(c@.subrange(j as int, c@.len() as int).drop_first() =~= c@.subrange(j + 1, c@.len() as int));
                j += 1;
            }
            let w = crate::dsl::slice_of(c.as_slice(), i, j);
            proof {
                assert(word_len(t) == j - i);
                assert(t.subrange(0, (j - i) as int) =~= w@);
                assert(t.subrange((j - i) as int, t.len() as int) =~= c@.subrange(j as int, c@.len() as int));
                let od = done;
                done = done.push(w@);
                assert(done.drop_last() =~= od);
                assert(words(s@) =~= done + words(c@.subrange(j as int, c@.len() as int)));
            }
            match word_id_of(w.as_slice()) {
                Some(v) => {
                    cand = Some(v);
                },
                None => {},
            }
            i = j;
        }
    }
    assert(c@.subrange(c@.len() as int, c@.len() as int) =~= Seq::<char>::empty());
    assert(done + Seq::<Seq<char>>::empty() =~= done);
    match cand {
        Some(v) => Some(crate::text::string_of(v.as_slice())),
        None => None,
    }
}

/// Why a waveform header is refused.
#[derive(Debug, PartialEq, Eq, Structural)]
pub enum HeaderError {
    /// `version` is not 0.3.x.
    Version,
    /// `schema_semver` is not 0.3.x.
    SchemaSemver,
    /// The domain is not one of the known ones.
    Domain,
    /// The timebase tick is not positive.
    Tick,
}

pub open spec fn is_v03(v: Seq<char>) -> bool {
    v.len() >= 4 && v.subrange(0, 4) == "0.3."@
}

pub open spec fn known_domain(d: Seq<char>) -> bool {
    d == "audio"@ || d == "image"@ || d == "video"@ || d == "timeseries"@ || d == "graph"@ || d
        == "text"@ || d == "dna"@ || d == "field"@
}

/// The basic header checks, in order: the version, the schema version, the
/// domain, and whether the timebase tick is positive.
pub open spec fn validate_basic_spec(
    version: Seq<char>,
    schema_semver: Seq<char>,
    domain: Seq<char>,
    tick_positive: bool,
) -> Result<(), HeaderError> {
    if !is_v03(version) {
        Err(HeaderError::Version)
    } else if !is_v03(schema_semver) {
        Err(HeaderError::SchemaSemver)
    } else if !known_domain(domain) {
        Err(HeaderError::Domain)
    } else if !tick_positive {
        Err(HeaderError::Tick)
    } else {
        Ok(())
    }
}

fn v03_of(v: &str) -> (r: bool)
    ensures
        r == is_v03(v@),
{
    let c = crate::text::chars_of(v);
    if c.len() < 4 {
        return false;
    }
    let head = crate::dsl::slice_of(c.as_slice(), 0, 4);
    crate::text::str_eq(head.as_slice(), "0.3.")
}

/// Minimal sanity checks of a waveform header, see `validate_basic_spec`; the
/// caller says whether the timebase tick is above zero.
pub fn validate_basic(version: &str, schema_semver: &str, domain: &str, tick_positive: bool) -> (r:
    Result<(), HeaderError>)
    ensures
        r == validate_basic_spec(version@, schema_semver@, domain@, tick_positive),
{
    if !v03_of(version) {
        return Err(HeaderError::Version);
    }
    if !v03_of(schema_semver) {
        return Err(HeaderError::SchemaSemver);
    }
    let d = crate::text::chars_of(domain);
    let ds = d.as_slice();
    let known = crate::text::str_eq(ds, "audio") || crate::text::str_eq(ds, "image")
        || crate::text::str_eq(ds, "video") || crate::text::str_eq(ds, "timeseries")
        || crate::text::str_eq(ds, "graph") || crate::text::str_eq(ds, "text")
        || crate::text::str_eq(ds, "dna") || crate::text::str_eq(ds, "field");
    if !known {
        return Err(HeaderError::Domain);
    }
    if !tick_positive {
        return Err(HeaderError::Tick);
    }
    Ok(())
}

} // verus!
