//! Overlap-add settings and the errors of their evaluation.
use vstd::prelude::*;
use crate::dsl::trim;
use crate::text::{chars_of, lower_seq, lower_vec, str_eq};

verus! {

/// How frames add up: the window itself, or its square.
#[derive(Clone, Copy, Debug, PartialEq, Eq, Structural)]
pub enum ColaMode {
    Amp,
    Power,
}

/// An evaluation failure, with its message.
pub struct WaveEvalError(pub String);

/// The mode that a name gives: `power` or `pow` in any letter case, around
/// white space, is `Power`; anything else is `Amp`.
pub open spec fn cola_mode_of(s: Seq<char>) -> ColaMode {
    let t = lower_seq(trim(s));
    if t == "power"@ || t == "pow"@ {
        ColaMode::Power
    } else {
        ColaMode::Amp
    }
}

impl ColaMode {
    pub fn as_str(&self) -> (r: &'static str)
        ensures
            r@ == match self {
                ColaMode::Amp => "amp"@,
                ColaMode::Power => "power"@,
            },
    {
        match self {
            ColaMode::Amp => "amp",
            ColaMode::Power => "power",
        }
    }

    /// The mode that a name gives, see `cola_mode_of`.
    pub fn from(s: &str) -> (r: ColaMode)
        ensures
            r == cola_mode_of(s@),
    {
        let c = chars_of(s);
        let t = crate::dsl::trim_chars(c.as_slice());
        let l = lower_vec(t.as_slice());
        if str_eq(l.as_slice(), "power") || str_eq(l.as_slice(), "pow") {
            ColaMode::Power
        } else {
            ColaMode::Amp
        }
    }

    /// The same as `from`.
    pub fn from_str(s: &str) -> (r: ColaMode)
        ensures
            r == cola_mode_of(s@),
    {
        ColaMode::from(s)
    }
}

} // verus!
