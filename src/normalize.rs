//! Node normalization: from a loosely spelled node to a canonical node.
use vstd::prelude::*;
use crate::alias::{
    aa_keys, center_keys, coerce_bool, factor_keys, hop_keys, hop_ratio_keys, n_fft_keys, op_alias,
    op_keys, overlap_keys, pad_alias, pad_keys, window_alias, window_keys, OpKind, PadMode,
    WindowKind,
};
use crate::alias::{
    aa_key_list, center_key_list, coerce_bool_of, factor_key_list, hop_key_list,
    hop_ratio_key_list, n_fft_key_list, op_alias_of, op_key_list, overlap_key_list, pad_alias_of,
    pad_key_list, window_alias_of, window_key_list,
};
use crate::json::{first_of, jv_obj, obj_first, JVal, Json};
use crate::decimal::{hop_for, overlap_hop, parse_decimal, ratio_hop, read_decimal, uint_for, uint_of};
use crate::text::{chars_of, lower_seq, lower_vec};

verus! {

/// Parameters of a window/STFT node.
#[derive(Clone, Copy, Debug, PartialEq, Eq, Structural)]
pub struct WParams {
    pub n_fft: u64,
    pub hop: u64,
    pub window: WindowKind,
    pub center: bool,
    pub pad_mode: PadMode,
}

/// Parameters of a downsample node: the decimation factor and the anti-alias
/// filter, each where the node gives one.
pub struct DParams {
    pub factor: Option<u64>,
    pub aa: Option<String>,
}

/// A canonical node: the operator kind with exactly its canonical parameters.
pub enum CanonNode {
    W(WParams),
    T,
    D(DParams),
    A,
    C,
    Align,
    Phi,
}

/// The model of a canonical node.
pub enum CNode {
    W(WParams),
    T,
    D(Option<u64>, Option<Seq<char>>),
    A,
    C,
    Align,
    Phi,
}

impl View for CanonNode {
    type V = CNode;

    open spec fn view(&self) -> CNode {
        match self {
            CanonNode::W(p) => CNode::W(*p),
            CanonNode::T => CNode::T,
            CanonNode::D(d) => CNode::D(
                d.factor,
                match d.aa {
                    Some(s) => Some(s@),
                    None => None,
                },
            ),
            CanonNode::A => CNode::A,
            CanonNode::C => CNode::C,
            CanonNode::Align => CNode::Align,
            CanonNode::Phi => CNode::Phi,
        }
    }
}

/// Why a node could not be normalized.
pub enum NormalizeError {
    NodeNotAnObject,
    UnsupportedOperator(Json),
    MissingRequiredField(String),
    UnsupportedValue(String, Json),
    InvalidBoolean(Json),
    InvalidNumber(Json),
}

/// The model of a `NormalizeError`.
pub enum NErr {
    NodeNotAnObject,
    UnsupportedOperator(JVal),
    MissingRequiredField(Seq<char>),
    UnsupportedValue(Seq<char>, JVal),
    InvalidBoolean(JVal),
    InvalidNumber(JVal),
}

impl View for NormalizeError {
    type V = NErr;

    open spec fn view(&self) -> NErr {
        match self {
            NormalizeError::NodeNotAnObject => NErr::NodeNotAnObject,
            NormalizeError::UnsupportedOperator(j) => NErr::UnsupportedOperator(j@),
            NormalizeError::MissingRequiredField(f) => NErr::MissingRequiredField(f@),
            NormalizeError::UnsupportedValue(f, j) => NErr::UnsupportedValue(f@, j@),
            NormalizeError::InvalidBoolean(j) => NErr::InvalidBoolean(j@),
            NormalizeError::InvalidNumber(j) => NErr::InvalidNumber(j@),
        }
    }
}

pub open spec fn norm_view(r: Result<CanonNode, NormalizeError>) -> Result<CNode, NErr> {
    match r {
        Ok(n) => Ok(n@),
        Err(e) => Err(e@),
    }
}

/// A number given as JSON number text or as a string, see `parse_decimal`.
pub open spec fn json_number(v: JVal) -> Option<(bool, nat, int)> {
    match v {
        JVal::Num(t) => parse_decimal(t),
        JVal::Str(t) => parse_decimal(t),
        _ => None,
    }
}

/// A whole number from 0 to `u64::MAX`, in any notation (`1024`, `1024.0`,
/// `1e3`).
pub open spec fn json_uint(v: JVal) -> Option<nat> {
    match json_number(v) {
        Some(x) => uint_of(x),
        None => None,
    }
}

pub open spec fn default_hop(n: nat) -> nat {
    if n / 2 >= 1 {
        n / 2
    } else {
        1
    }
}

/// The operator kind that a node names; a node that names none is a window node.
pub open spec fn resolve_op(e: Seq<(Seq<char>, JVal)>) -> Result<OpKind, NErr> {
    match first_of(e, op_keys()) {
        None => Ok(OpKind::W),
        Some(v) => match v {
            JVal::Str(s) => match op_alias(lower_seq(s)) {
                Some(k) => Ok(k),
                None => Err(NErr::UnsupportedOperator(v)),
            },
            _ => Err(NErr::UnsupportedOperator(v)),
        },
    }
}

pub open spec fn resolve_n_fft(e: Seq<(Seq<char>, JVal)>) -> Result<nat, NErr> {
    match first_of(e, n_fft_keys()) {
        None => Err(NErr::MissingRequiredField("n_fft"@)),
        Some(v) => match json_uint(v) {
            Some(n) => if n >= 1 {
                Ok(n)
            } else {
                Err(NErr::InvalidNumber(v))
            },
            None => Err(NErr::InvalidNumber(v)),
        },
    }
}

/// The hop: given outright, else from a hop ratio, else from an overlap, else half of `n`.
pub open spec fn resolve_hop(e: Seq<(Seq<char>, JVal)>, n: nat) -> Result<nat, NErr> {
    match first_of(e, hop_keys()) {
        Some(v) => match json_uint(v) {
            Some(h) => if 1 <= h <= n {
                Ok(h)
            } else {
                Err(NErr::InvalidNumber(v))
            },
            None => Err(NErr::InvalidNumber(v)),
        },
        None => match first_of(e, hop_ratio_keys()) {
            Some(v) => match json_number(v) {
                Some(r) => Ok(ratio_hop(r, n) as nat),
                None => Err(NErr::InvalidNumber(v)),
            },
            None => match first_of(e, overlap_keys()) {
                Some(v) => match json_number(v) {
                    Some(r) => Ok(overlap_hop(r, n) as nat),
                    None => Err(NErr::InvalidNumber(v)),
                },
                None => Ok(default_hop(n)),
            },
        },
    }
}

pub open spec fn resolve_window(e: Seq<(Seq<char>, JVal)>) -> Result<WindowKind, NErr> {
    match first_of(e, window_keys()) {
        None => Err(NErr::MissingRequiredField("window"@)),
        Some(v) => match v {
            JVal::Str(s) => match window_alias(lower_seq(s)) {
                Some(w) => Ok(w),
                None => Err(NErr::UnsupportedValue("window"@, v)),
            },
            _ => Err(NErr::UnsupportedValue("window"@, v)),
        },
    }
}

pub open spec fn resolve_center(e: Seq<(Seq<char>, JVal)>) -> Result<bool, NErr> {
    match first_of(e, center_keys()) {
        None => Ok(false),
        Some(v) => match coerce_bool(v) {
            Some(b) => Ok(b),
            None => Err(NErr::InvalidBoolean(v)),
        },
    }
}

pub open spec fn resolve_pad(e: Seq<(Seq<char>, JVal)>) -> Result<PadMode, NErr> {
    match first_of(e, pad_keys()) {
        None => Ok(PadMode::Reflect),
        Some(v) => match v {
            JVal::Str(s) => match pad_alias(lower_seq(s)) {
                Some(p) => Ok(p),
                None => Err(NErr::UnsupportedValue("pad_mode"@, v)),
            },
            _ => Err(NErr::UnsupportedValue("pad_mode"@, v)),
        },
    }
}

/// The invariant of canonical window parameters: a positive `n_fft`, a hop
/// from 1 to `n_fft`, and never centred reflect padding (that pair is written
/// as uncentred Toeplitz).
pub open spec fn w_params_wf(p: WParams) -> bool {
    &&& p.n_fft >= 1
    &&& 1 <= p.hop <= p.n_fft
    &&& !(p.center && p.pad_mode == PadMode::Reflect)
}

/// Centred reflect padding is the same transform as uncentred Toeplitz extension.
pub open spec fn collapse(p: WParams) -> WParams {
    if p.center && p.pad_mode == PadMode::Reflect {
        WParams { center: false, pad_mode: PadMode::Toeplitz, ..p }
    } else {
        p
    }
}

pub open spec fn norm_w(e: Seq<(Seq<char>, JVal)>) -> Result<WParams, NErr> {
    match resolve_n_fft(e) {
        Err(x) => Err(x),
        Ok(n) => match resolve_hop(e, n) {
            Err(x) => Err(x),
            Ok(h) => match resolve_window(e) {
                Err(x) => Err(x),
                Ok(w) => match resolve_center(e) {
                    Err(x) => Err(x),
                    Ok(c) => match resolve_pad(e) {
                        Err(x) => Err(x),
                        Ok(p) => Ok(
                            collapse(
                                WParams {
                                    n_fft: n as u64,
                                    hop: h as u64,
                                    window: w,
                                    center: c,
                                    pad_mode: p,
                                },
                            ),
                        ),
                    },
                },
            },
        },
    }
}

pub open spec fn resolve_factor(e: Seq<(Seq<char>, JVal)>) -> Result<Option<u64>, NErr> {
    match first_of(e, factor_keys()) {
        None => Ok(None),
        Some(v) => match json_uint(v) {
            Some(f) => if f >= 1 {
                Ok(Some(f as u64))
            } else {
                Err(NErr::InvalidNumber(v))
            },
            None => Err(NErr::InvalidNumber(v)),
        },
    }
}

/// The anti-alias filter: a name, a number's text, or `true` / `false`.
pub open spec fn resolve_aa(e: Seq<(Seq<char>, JVal)>) -> Result<Option<Seq<char>>, NErr> {
    match first_of(e, aa_keys()) {
        None => Ok(None),
        Some(v) => match v {
            JVal::Str(s) => Ok(Some(s)),
            JVal::Num(t) => Ok(Some(t)),
            JVal::Bool(b) => Ok(
                Some(
                    if b {
                        "true"@
                    } else {
                        "false"@
                    },
                ),
            ),
            _ => Err(NErr::UnsupportedValue("aa"@, v)),
        },
    }
}

pub open spec fn normalize_spec(n: JVal) -> Result<CNode, NErr> {
    match n {
        JVal::Obj(e) => match resolve_op(e) {
            Err(x) => Err(x),
            Ok(k) => match k {
                OpKind::W => match norm_w(e) {
                    Ok(p) => Ok(CNode::W(p)),
                    Err(x) => Err(x),
                },
                OpKind::D => match resolve_factor(e) {
                    Err(x) => Err(x),
                    Ok(f) => match resolve_aa(e) {
                        Err(x) => Err(x),
                        Ok(a) => Ok(CNode::D(f, a)),
                    },
                },
                OpKind::T => Ok(CNode::T),
                OpKind::A => Ok(CNode::A),
                OpKind::C => Ok(CNode::C),
                OpKind::Align => Ok(CNode::Align),
                OpKind::Phi => Ok(CNode::Phi),
            },
        },
        _ => Err(NErr::NodeNotAnObject),
    }
}

/// The number that a value gives, see `json_number` and `read_decimal`.
fn json_number_of(v: &Json) -> (r: Option<(bool, Vec<u8>, i128)>)
    ensures
        match r {
            None => json_number(v@) is None,
            Some(x) => json_number(v@) matches Some(p) && p.0 == x.0 && p.1 == crate::decimal::dv(
                crate::decimal::dview(x.1@),
            ) && crate::decimal::digits_ok(crate::decimal::dview(x.1@)) && x.1@.len() >= 1
                && crate::decimal::exp_stands_for(p.2, x.2 as int) && -2 * (
            crate::decimal::EXP_CAP as int) <= x.2 <= crate::decimal::EXP_CAP as int,
        },
{
    match v {
        Json::Num(t) => {
            let c = chars_of(t.as_str());
            read_decimal(c.as_slice())
        },
        Json::Str(t) => {
            let c = chars_of(t.as_str());
            read_decimal(c.as_slice())
        },
        _ => None,
    }
}

pub fn json_uint_of(v: &Json) -> (r: Option<u64>)
    ensures
        match r {
            Some(x) => json_uint(v@) == Some(x as nat),
            None => json_uint(v@) is None,
        },
{
    match json_number_of(v) {
        None => None,
        Some((neg, digs, ec)) => uint_for(neg, &digs, ec, Ghost(json_number(v@)->Some_0.2)),
    }
}

fn hop_of(v: &Json, n: u64, overlap: bool) -> (r: Option<u64>)
    requires
        n >= 1,
    ensures
        match r {
            Some(h) => json_number(v@) matches Some(x) && h as int == (if overlap {
                overlap_hop(x, n as nat)
            } else {
                ratio_hop(x, n as nat)
            }) && 1 <= h <= n,
            None => json_number(v@) is None,
        },
{
    match json_number_of(v) {
        None => None,
        Some((neg, digs, ec)) => Some(hop_for(neg, &digs, ec, Ghost(json_number(v@)->Some_0.2), n, overlap)),
    }
}

fn resolve_op_of(e: &Vec<(String, Json)>) -> (r: Result<OpKind, NormalizeError>)
    ensures
        match r {
            Ok(k) => resolve_op(jv_obj(e@)) == Ok::<OpKind, NErr>(k),
            Err(x) => resolve_op(jv_obj(e@)) == Err::<OpKind, NErr>(x@),
        },
{
    let keys = op_key_list();
    match obj_first(e, keys.as_slice()) {
        None => Ok(OpKind::W),
        Some(v) => match v {
            Json::Str(s) => {
                let c = chars_of(s.as_str());
                let l = lower_vec(c.as_slice());
                match op_alias_of(l.as_slice()) {
                    Some(k) => Ok(k),
                    None => Err(NormalizeError::UnsupportedOperator(v.deep_copy())),
                }
            },
            _ => Err(NormalizeError::UnsupportedOperator(v.deep_copy())),
        },
    }
}

fn resolve_n_fft_of(e: &Vec<(String, Json)>) -> (r: Result<u64, NormalizeError>)
    ensures
        match r {
            Ok(n) => resolve_n_fft(jv_obj(e@)) == Ok::<nat, NErr>(n as nat),
            Err(x) => resolve_n_fft(jv_obj(e@)) == Err::<nat, NErr>(x@),
        },
{
    let keys = n_fft_key_list();
    match obj_first(e, keys.as_slice()) {
        None => Err(NormalizeError::MissingRequiredField("n_fft".to_owned())),
        Some(v) => match json_uint_of(v) {
            Some(n) => if n >= 1 {
                Ok(n)
            } else {
                Err(NormalizeError::InvalidNumber(v.deep_copy()))
            },
            None => Err(NormalizeError::InvalidNumber(v.deep_copy())),
        },
    }
}

fn resolve_hop_of(e: &Vec<(String, Json)>, n: u64) -> (r: Result<u64, NormalizeError>)
    requires
        n >= 1,
    ensures
        match r {
            Ok(h) => resolve_hop(jv_obj(e@), n as nat) == Ok::<nat, NErr>(h as nat) && 1 <= h <= n,
            Err(x) => resolve_hop(jv_obj(e@), n as nat) == Err::<nat, NErr>(x@),
        },
{
    let keys = hop_key_list();
    match obj_first(e, keys.as_slice()) {
        Some(v) => match json_uint_of(v) {
            Some(h) => if 1 <= h && h <= n {
                Ok(h)
            } else {
                Err(NormalizeError::InvalidNumber(v.deep_copy()))
            },
            None => Err(NormalizeError::InvalidNumber(v.deep_copy())),
        },
        None => {
            let rkeys = hop_ratio_key_list();
            match obj_first(e, rkeys.as_slice()) {
                Some(v) => match hop_of(v, n, false) {
                    Some(h) => Ok(h),
                    None => Err(NormalizeError::InvalidNumber(v.deep_copy())),
                },
                None => {
                    let okeys = overlap_key_list();
                    match obj_first(e, okeys.as_slice()) {
                        Some(v) => match hop_of(v, n, true) {
                            Some(h) => Ok(h),
                            None => Err(NormalizeError::InvalidNumber(v.deep_copy())),
                        },
                        None => if n / 2 >= 1 {
                            Ok(n / 2)
                        } else {
                            Ok(1)
                        },
                    }
                },
            }
        },
    }
}

fn resolve_window_of(e: &Vec<(String, Json)>) -> (r: Result<WindowKind, NormalizeError>)
    ensures
        match r {
            Ok(w) => resolve_window(jv_obj(e@)) == Ok::<WindowKind, NErr>(w),
            Err(x) => resolve_window(jv_obj(e@)) == Err::<WindowKind, NErr>(x@),
        },
{
    let keys = window_key_list();
    match obj_first(e, keys.as_slice()) {
        None => Err(NormalizeError::MissingRequiredField("window".to_owned())),
        Some(v) => match v {
            Json::Str(s) => {
                let c = chars_of(s.as_str());
                let l = lower_vec(c.as_slice());
                match window_alias_of(l.as_slice()) {
                    Some(w) => Ok(w),
                    None => Err(NormalizeError::UnsupportedValue("window".to_owned(), v.deep_copy())),
                }
            },
            _ => Err(NormalizeError::UnsupportedValue("window".to_owned(), v.deep_copy())),
        },
    }
}

fn resolve_center_of(e: &Vec<(String, Json)>) -> (r: Result<bool, NormalizeError>)
    ensures
        match r {
            Ok(c) => resolve_center(jv_obj(e@)) == Ok::<bool, NErr>(c),
            Err(x) => resolve_center(jv_obj(e@)) == Err::<bool, NErr>(x@),
        },
{
    let keys = center_key_list();
    match obj_first(e, keys.as_slice()) {
        None => Ok(false),
        Some(v) => match coerce_bool_of(v) {
            Some(b) => Ok(b),
            None => Err(NormalizeError::InvalidBoolean(v.deep_copy())),
        },
    }
}

fn resolve_pad_of(e: &Vec<(String, Json)>) -> (r: Result<PadMode, NormalizeError>)
    ensures
        match r {
            Ok(p) => resolve_pad(jv_obj(e@)) == Ok::<PadMode, NErr>(p),
            Err(x) => resolve_pad(jv_obj(e@)) == Err::<PadMode, NErr>(x@),
        },
{
    let keys = pad_key_list();
    match obj_first(e, keys.as_slice()) {
        None => Ok(PadMode::Reflect),
        Some(v) => match v {
            Json::Str(s) => {
                let c = chars_of(s.as_str());
                let l = lower_vec(c.as_slice());
                match pad_alias_of(l.as_slice()) {
                    Some(p) => Ok(p),
                    None => Err(
                        NormalizeError::UnsupportedValue("pad_mode".to_owned(), v.deep_copy()),
                    ),
                }
            },
            _ => Err(NormalizeError::UnsupportedValue("pad_mode".to_owned(), v.deep_copy())),
        },
    }
}

fn norm_w_of(e: &Vec<(String, Json)>) -> (r: Result<WParams, NormalizeError>)
    ensures
        match r {
            Ok(p) => norm_w(jv_obj(e@)) == Ok::<WParams, NErr>(p) && w_params_wf(p),
            Err(x) => norm_w(jv_obj(e@)) == Err::<WParams, NErr>(x@),
        },
{
    let n = match resolve_n_fft_of(e) {
        Ok(n) => n,
        Err(x) => return Err(x),
    };
    let hop = match resolve_hop_of(e, n) {
        Ok(h) => h,
        Err(x) => return Err(x),
    };
    let window = match resolve_window_of(e) {
        Ok(w) => w,
        Err(x) => return Err(x),
    };
    let center = match resolve_center_of(e) {
        Ok(c) => c,
        Err(x) => return Err(x),
    };
    let pad_mode = match resolve_pad_of(e) {
        Ok(p) => p,
        Err(x) => return Err(x),
    };
    if center && pad_mode == PadMode::Reflect {
        Ok(WParams { n_fft: n, hop, window, center: false, pad_mode: PadMode::Toeplitz })
    } else {
        Ok(WParams { n_fft: n, hop, window, center, pad_mode })
    }
}

fn resolve_factor_of(e: &Vec<(String, Json)>) -> (r: Result<Option<u64>, NormalizeError>)
    ensures
        match r {
            Ok(f) => resolve_factor(jv_obj(e@)) == Ok::<Option<u64>, NErr>(f),
            Err(x) => resolve_factor(jv_obj(e@)) == Err::<Option<u64>, NErr>(x@),
        },
{
    let keys = factor_key_list();
    match obj_first(e, keys.as_slice()) {
        None => Ok(None),
        Some(v) => match json_uint_of(v) {
            Some(f) => if f >= 1 {
                Ok(Some(f))
            } else {
                Err(NormalizeError::InvalidNumber(v.deep_copy()))
            },
            None => Err(NormalizeError::InvalidNumber(v.deep_copy())),
        },
    }
}

fn resolve_aa_of(e: &Vec<(String, Json)>) -> (r: Result<Option<String>, NormalizeError>)
    ensures
        match r {
            Ok(a) => resolve_aa(jv_obj(e@)) == Ok::<Option<Seq<char>>, NErr>(
                match a {
                    Some(s) => Some(s@),
                    None => None,
                },
            ),
            Err(x) => resolve_aa(jv_obj(e@)) == Err::<Option<Seq<char>>, NErr>(x@),
        },
{
    let keys = aa_key_list();
    match obj_first(e, keys.as_slice()) {
        None => Ok(None),
        Some(v) => match v {
            Json::Str(s) => Ok(Some(s.clone())),
            Json::Num(t) => Ok(Some(t.clone())),
            Json::Bool(b) => if *b {
                Ok(Some("true".to_owned()))
            } else {
                Ok(Some("false".to_owned()))
            },
            _ => Err(NormalizeError::UnsupportedValue("aa".to_owned(), v.deep_copy())),
        },
    }
}

/// Normalizes one raw node into its canonical form.
pub fn normalize(raw: &Json) -> (r: Result<CanonNode, NormalizeError>)
    ensures
        norm_view(r) == normalize_spec(raw@),
        r matches Ok(CanonNode::W(p)) ==> w_params_wf(p),
{
    match raw {
        Json::Obj(e) => {
            let k = match resolve_op_of(e) {
                Ok(k) => k,
                Err(x) => return Err(x),
            };
            match k {
                OpKind::W => match norm_w_of(e) {
                    Ok(p) => Ok(CanonNode::W(p)),
                    Err(x) => Err(x),
                },
                OpKind::D => {
                    let factor = match resolve_factor_of(e) {
                        Ok(f) => f,
                        Err(x) => return Err(x),
                    };
                    let aa = match resolve_aa_of(e) {
                        Ok(a) => a,
                        Err(x) => return Err(x),
                    };
                    Ok(CanonNode::D(DParams { factor, aa }))
                },
                OpKind::T => Ok(CanonNode::T),
                OpKind::A => Ok(CanonNode::A),
                OpKind::C => Ok(CanonNode::C),
                OpKind::Align => Ok(CanonNode::Align),
                OpKind::Phi => Ok(CanonNode::Phi),
            }
        },
        _ => Err(NormalizeError::NodeNotAnObject),
    }
}

} // verus!
