//! The fixed vocabulary: operator names, parameter keys and value synonyms.
use vstd::prelude::*;
use crate::json::{key_views, JVal, Json};
use crate::text::{chars_of, lower_seq, lower_vec, str_eq};

verus! {

/// The operator kind of a node.
#[derive(Clone, Copy, Debug, PartialEq, Eq, Structural)]
pub enum OpKind {
    W,
    T,
    D,
    A,
    C,
    Align,
    Phi,
}

#[derive(Clone, Copy, Debug, PartialEq, Eq, Structural)]
pub enum WindowKind {
    Hann,
    Hamming,
    Blackman,
}

#[derive(Clone, Copy, Debug, PartialEq, Eq, Structural)]
pub enum PadMode {
    Reflect,
    Toeplitz,
}

/// Keys that name the operator, by priority.
pub open spec fn op_keys() -> Seq<Seq<char>> {
    seq!["op"@, "type"@, "kind"@]
}

pub open spec fn n_fft_keys() -> Seq<Seq<char>> {
    seq!["n_fft"@, "nfft"@, "N"@, "n"@, "window_size"@, "win_length"@, "fft_size"@]
}

pub open spec fn hop_keys() -> Seq<Seq<char>> {
    seq!["hop"@, "hop_length"@, "hop_size"@, "stride"@]
}

pub open spec fn hop_ratio_keys() -> Seq<Seq<char>> {
    seq!["hop_ratio"@, "hop_frac"@, "hop_fraction"@]
}

pub open spec fn overlap_keys() -> Seq<Seq<char>> {
    seq!["overlap"@, "overlap_ratio"@]
}

pub open spec fn window_keys() -> Seq<Seq<char>> {
    seq!["window"@, "win"@, "window_type"@]
}

pub open spec fn center_keys() -> Seq<Seq<char>> {
    seq!["center"@, "centered"@]
}

pub open spec fn pad_keys() -> Seq<Seq<char>> {
    seq!["pad_mode"@, "padding"@, "pad"@, "edge"@]
}

pub open spec fn factor_keys() -> Seq<Seq<char>> {
    seq!["factor"@, "lambda"@, "λ"@, "decim"@, "q"@]
}

pub open spec fn aa_keys() -> Seq<Seq<char>> {
    seq!["aa"@, "anti_alias"@, "antialias"@]
}

pub fn op_key_list() -> (r: Vec<&'static str>)
    ensures
        key_views(r@) == op_keys(),
{
    let r = vec!["op", "type", "kind"];
    assert(key_views(r@) =~= op_keys());
    r
}

pub fn n_fft_key_list() -> (r: Vec<&'static str>)
    ensures
        key_views(r@) == n_fft_keys(),
{
    let r = vec!["n_fft", "nfft", "N", "n", "window_size", "win_length", "fft_size"];
    assert(key_views(r@) =~= n_fft_keys());
    r
}

pub fn hop_key_list() -> (r: Vec<&'static str>)
    ensures
        key_views(r@) == hop_keys(),
{
    let r = vec!["hop", "hop_length", "hop_size", "stride"];
    assert(key_views(r@) =~= hop_keys());
    r
}

pub fn hop_ratio_key_list() -> (r: Vec<&'static str>)
    ensures
        key_views(r@) == hop_ratio_keys(),
{
    let r = vec!["hop_ratio", "hop_frac", "hop_fraction"];
    assert(key_views(r@) =~= hop_ratio_keys());
    r
}

pub fn overlap_key_list() -> (r: Vec<&'static str>)
    ensures
        key_views(r@) == overlap_keys(),
{
    let r = vec!["overlap", "overlap_ratio"];
    assert(key_views(r@) =~= overlap_keys());
    r
}

pub fn window_key_list() -> (r: Vec<&'static str>)
    ensures
        key_views(r@) == window_keys(),
{
    let r = vec!["window", "win", "window_type"];
    assert(key_views(r@) =~= window_keys());
    r
}

pub fn center_key_list() -> (r: Vec<&'static str>)
    ensures
        key_views(r@) == center_keys(),
{
    let r = vec!["center", "centered"];
    assert(key_views(r@) =~= center_keys());
    r
}

pub fn pad_key_list() -> (r: Vec<&'static str>)
    ensures
        key_views(r@) == pad_keys(),
{
    let r = vec!["pad_mode", "padding", "pad", "edge"];
    assert(key_views(r@) =~= pad_keys());
    r
}

pub fn factor_key_list() -> (r: Vec<&'static str>)
    ensures
        key_views(r@) == factor_keys(),
{
    let r = vec!["factor", "lambda", "λ", "decim", "q"];
    assert(key_views(r@) =~= factor_keys());
    r
}

pub fn aa_key_list() -> (r: Vec<&'static str>)
    ensures
        key_views(r@) == aa_keys(),
{
    let r = vec!["aa", "anti_alias", "antialias"];
    assert(key_views(r@) =~= aa_keys());
    r
}

/// Operator names, lower-cased, and the kind each one means.
pub open spec fn op_alias(s: Seq<char>) -> Option<OpKind> {
    if s == "w"@ || s == "stft"@ || s == "window"@ {
        Some(OpKind::W)
    } else if s == "t"@ || s == "istft"@ || s == "inverse"@ {
        Some(OpKind::T)
    } else if s == "d"@ || s == "down"@ || s == "downsample"@ || s == "decimate"@ {
        Some(OpKind::D)
    } else if s == "a"@ || s == "amp"@ || s == "amplitude"@ {
        Some(OpKind::A)
    } else if s == "c"@ || s == "coh"@ || s == "coherence"@ {
        Some(OpKind::C)
    } else if s == "align"@ || s == "alignment"@ {
        Some(OpKind::Align)
    } else if s == "phi"@ || s == "φ"@ || s == "Φ"@ || s == "phase"@ {
        Some(OpKind::Phi)
    } else {
        None
    }
}

/// Window names, lower-cased.
pub open spec fn window_alias(s: Seq<char>) -> Option<WindowKind> {
    if s == "hann"@ || s == "hanning"@ {
        Some(WindowKind::Hann)
    } else if s == "hamming"@ {
        Some(WindowKind::Hamming)
    } else if s == "blackman"@ {
        Some(WindowKind::Blackman)
    } else {
        None
    }
}

/// Padding modes, lower-cased.
pub open spec fn pad_alias(s: Seq<char>) -> Option<PadMode> {
    if s == "reflect"@ || s == "symmetric"@ || s == "mirror"@ {
        Some(PadMode::Reflect)
    } else if s == "toeplitz"@ || s == "conv"@ || s == "valid-conv"@ {
        Some(PadMode::Toeplitz)
    } else {
        None
    }
}

/// Spellings of a truth value, lower-cased.
pub open spec fn bool_word(s: Seq<char>) -> Option<bool> {
    if s == "true"@ || s == "yes"@ || s == "on"@ || s == "1"@ {
        Some(true)
    } else if s == "false"@ || s == "no"@ || s == "off"@ || s == "0"@ {
        Some(false)
    } else {
        None
    }
}

/// A truth value given as a boolean, as the number 0 or 1, or as a word.
pub open spec fn coerce_bool(v: JVal) -> Option<bool> {
    match v {
        JVal::Bool(b) => Some(b),
        JVal::Num(t) => if t == "1"@ {
            Some(true)
        } else if t == "0"@ {
            Some(false)
        } else {
            None
        },
        JVal::Str(s) => bool_word(lower_seq(s)),
        _ => None,
    }
}

pub fn op_alias_of(s: &[char]) -> (r: Option<OpKind>)
    ensures
        r == op_alias(s@),
{
    if str_eq(s, "w") || str_eq(s, "stft") || str_eq(s, "window") {
        Some(OpKind::W)
    } else if str_eq(s, "t") || str_eq(s, "istft") || str_eq(s, "inverse") {
        Some(OpKind::T)
    } else if str_eq(s, "d") || str_eq(s, "down") || str_eq(s, "downsample") || str_eq(
        s,
        "decimate",
    ) {
        Some(OpKind::D)
    } else if str_eq(s, "a") || str_eq(s, "amp") || str_eq(s, "amplitude") {
        Some(OpKind::A)
    } else if str_eq(s, "c") || str_eq(s, "coh") || str_eq(s, "coherence") {
        Some(OpKind::C)
    } else if str_eq(s, "align") || str_eq(s, "alignment") {
        Some(OpKind::Align)
    } else if str_eq(s, "phi") || str_eq(s, "φ") || str_eq(s, "Φ") || str_eq(s, "phase") {
        Some(OpKind::Phi)
    } else {
        None
    }
}

pub fn window_alias_of(s: &[char]) -> (r: Option<WindowKind>)
    ensures
        r == window_alias(s@),
{
    if str_eq(s, "hann") || str_eq(s, "hanning") {
        Some(WindowKind::Hann)
    } else if str_eq(s, "hamming") {
        Some(WindowKind::Hamming)
    } else if str_eq(s, "blackman") {
        Some(WindowKind::Blackman)
    } else {
        None
    }
}

pub fn pad_alias_of(s: &[char]) -> (r: Option<PadMode>)
    ensures
        r == pad_alias(s@),
{
    if str_eq(s, "reflect") || str_eq(s, "symmetric") || str_eq(s, "mirror") {
        Some(PadMode::Reflect)
    } else if str_eq(s, "toeplitz") || str_eq(s, "conv") || str_eq(s, "valid-conv") {
        Some(PadMode::Toeplitz)
    } else {
        None
    }
}

pub fn bool_word_of(s: &[char]) -> (r: Option<bool>)
    ensures
        r == bool_word(s@),
{
    if str_eq(s, "true") || str_eq(s, "yes") || str_eq(s, "on") || str_eq(s, "1") {
        Some(true)
    } else if str_eq(s, "false") || str_eq(s, "no") || str_eq(s, "off") || str_eq(s, "0") {
        Some(false)
    } else {
        None
    }
}

/// The truth value that `v` spells, see `coerce_bool`.
pub fn coerce_bool_of(v: &Json) -> (r: Option<bool>)
    ensures
        r == coerce_bool(v@),
{
    match v {
        Json::Bool(b) => Some(*b),
        Json::Num(t) => {
            let c = chars_of(t.as_str());
            if str_eq(c.as_slice(), "1") {
                Some(true)
            } else if str_eq(c.as_slice(), "0") {
                Some(false)
            } else {
                None
            }
        },
        Json::Str(s) => {
            let c = chars_of(s.as_str());
            let l = lower_vec(c.as_slice());
            bool_word_of(l.as_slice())
        },
        _ => None,
    }
}

} // verus!
