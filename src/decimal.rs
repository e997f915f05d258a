//! Exact reading of JSON number text: any number of digits, a fraction, an
//! exponent, and an optional trailing `%`.
use vstd::prelude::*;
use crate::num::{digit_of, digit_val, is_digit, lemma_pow10_mono, pow10};
use vstd::arithmetic::div_mod::lemma_fundamental_div_mod_converse;

verus! {

/// The value of a sequence of decimal digits, most significant first.
pub open spec fn dv(s: Seq<nat>) -> nat
    decreases s.len(),
{
    if s.len() == 0 {
        0
    } else {
        dv(s.drop_last()) * 10 + s.last()
    }
}

pub open spec fn digits_ok(s: Seq<nat>) -> bool {
    forall|i: int| 0 <= i < s.len() ==> #[trigger] s[i] < 10
}

pub proof fn lemma_pow10_add(a: nat, b: nat)
    ensures
        pow10(a + b) == pow10(a) * pow10(b),
    decreases b,
{
    if b == 0 {
        assert(pow10(0) == 1);
        assert(a + b == a);
    } else {
        lemma_pow10_add(a, (b - 1) as nat);
        assert((a + b - 1) as nat == a + (b - 1) as nat);
        assert(pow10(a + b) == 10 * pow10((a + b - 1) as nat));
        assert(pow10(a) * pow10(b) == pow10(a) * (10 * pow10((b - 1) as nat)));
        assert(pow10(a) * (10 * pow10((b - 1) as nat)) == 10 * (pow10(a) * pow10((b - 1) as nat)))
            by (nonlinear_arith);
    }
}

/// The value of two digit sequences written one after the other.
pub proof fn lemma_dv_concat(a: Seq<nat>, b: Seq<nat>)
    ensures
        dv(a + b) == dv(a) * pow10(b.len()) + dv(b),
    decreases b.len(),
{
    if b.len() == 0 {
        assert(a + b =~= a);
        assert(pow10(0) == 1);
        assert(dv(b) == 0);
    } else {
        lemma_dv_concat(a, b.drop_last());
        assert((a + b).drop_last() =~= a + b.drop_last());
        assert((a + b).last() == b.last());
        let p = pow10((b.len() - 1) as nat);
        assert(pow10(b.len()) == 10 * p);
        assert((dv(a) * p + dv(b.drop_last())) * 10 + b.last() == dv(a) * (10 * p) + (dv(b.drop_last()) * 10
            + b.last())) by (nonlinear_arith);
        assert(dv(a + b) == dv(a + b.drop_last()) * 10 + b.last());
        assert(dv(b) == dv(b.drop_last()) * 10 + b.last());
    }
}

pub proof fn lemma_dv_bounds(s: Seq<nat>)
    requires
        digits_ok(s),
    ensures
        dv(s) < pow10(s.len()),
        s.len() > 0 && s[0] >= 1 ==> pow10((s.len() - 1) as nat) <= dv(s),
    decreases s.len(),
{
    if s.len() > 0 {
        let d = s.drop_last();
        assert(digits_ok(d)) by {
            assert forall|i: int| 0 <= i < d.len() implies #[trigger] d[i] < 10 by {
                assert(d[i] == s[i]);
            }
        }
        lemma_dv_bounds(d);
        assert(s.last() < 10);
        let p = pow10(d.len());
        assert(dv(d) * 10 + s.last() < 10 * p) by (nonlinear_arith)
            requires
                dv(d) < p,
                s.last() < 10,
        ;
        if s[0] >= 1 {
            if d.len() > 0 {
                assert(d[0] == s[0]);
                let q = pow10((d.len() - 1) as nat);
                assert(q <= dv(d));
                assert(10 * q <= dv(d) * 10 + s.last()) by (nonlinear_arith)
                    requires
                        q <= dv(d),
                ;
            } else {
                assert(s.last() == s[0]);
            }
        }
    }
}

pub proof fn lemma_dv_zero(s: Seq<nat>)
    ensures
        dv(s) == 0 <==> forall|i: int| 0 <= i < s.len() ==> #[trigger] s[i] == 0,
    decreases s.len(),
{
    if s.len() > 0 {
        lemma_dv_zero(s.drop_last());
        if dv(s) == 0 {
            assert forall|i: int| 0 <= i < s.len() implies #[trigger] s[i] == 0 by {
                if i < s.len() - 1 {
                    assert(s.drop_last()[i] == s[i]);
                }
            }
        }
        if forall|i: int| 0 <= i < s.len() ==> #[trigger] s[i] == 0 {
            assert forall|i: int| 0 <= i < s.drop_last().len() implies #[trigger] s.drop_last()[i] == 0 by {
                assert(s.drop_last()[i] == s[i]);
            }
            assert(s[s.len() - 1] == 0);
        }
    }
}

/// The state of reading a number: the phase (0 start, 1 after a sign, 2 in
/// the whole part, 3 after the dot, 4 after the exponent mark, 5 after the
/// exponent's sign, 6 in the exponent), the sign, the digits, the number of
/// digits after the dot, and the exponent's sign and value.
pub struct Scan {
    pub phase: nat,
    pub neg: bool,
    pub digs: Seq<nat>,
    pub scale: nat,
    pub eneg: bool,
    pub ev: nat,
}

pub open spec fn scan_step(st: Scan, c: char) -> Option<Scan> {
    if is_digit(c) {
        let d = digit_val(c);
        if st.phase <= 2 {
            Some(Scan { phase: 2, digs: st.digs.push(d), ..st })
        } else if st.phase == 3 {
            Some(Scan { digs: st.digs.push(d), scale: st.scale + 1, ..st })
        } else {
            Some(Scan { phase: 6, ev: st.ev * 10 + d, ..st })
        }
    } else if c == '-' && st.phase == 0 {
        Some(Scan { phase: 1, neg: true, ..st })
    } else if c == '-' && st.phase == 4 {
        Some(Scan { phase: 5, eneg: true, ..st })
    } else if c == '+' && st.phase == 4 {
        Some(Scan { phase: 5, ..st })
    } else if c == '.' && st.phase <= 2 {
        Some(Scan { phase: 3, ..st })
    } else if (c == 'e' || c == 'E') && (st.phase == 2 || st.phase == 3) && st.digs.len() >= 1 {
        Some(Scan { phase: 4, ..st })
    } else {
        None
    }
}

pub open spec fn num_scan(s: Seq<char>) -> Option<Scan>
    decreases s.len(),
{
    if s.len() == 0 {
        Some(Scan { phase: 0, neg: false, digs: Seq::empty(), scale: 0, eneg: false, ev: 0 })
    } else {
        match num_scan(s.drop_last()) {
            None => None,
            Some(st) => scan_step(st, s.last()),
        }
    }
}

/// A decimal number `(negative, m, e)` of value `±m * 10^e`: an optional
/// minus, digits with at most one dot (at least one digit), an optional
/// exponent `e`/`E` with an optional sign and digits, and an optional trailing
/// `%` that divides by one hundred.
pub open spec fn parse_decimal(t: Seq<char>) -> Option<(bool, nat, int)> {
    let pct = t.len() > 0 && t.last() == '%';
    let body = if pct {
        t.drop_last()
    } else {
        t
    };
    match num_scan(body) {
        Some(st) => if (st.phase == 2 || st.phase == 3 || st.phase == 6) && st.digs.len() >= 1 {
            Some(
                (
                    st.neg,
                    dv(st.digs),
                    (if st.eneg {
                        -(st.ev as int)
                    } else {
                        st.ev as int
                    }) - st.scale - (if pct {
                        2int
                    } else {
                        0int
                    }),
                ),
            )
        } else {
            None
        },
        None => None,
    }
}

pub open spec fn dview(v: Seq<u8>) -> Seq<nat> {
    v.map_values(|x: u8| x as nat)
}

/// The bound beyond which an exponent's exact size no longer matters.
pub const EXP_CAP: u128 = 1_000_000_000_000_000_000_000_000_000_000;

/// `ec` stands for the exponent `e`: it is `e`, or both lie far beyond any
/// digit count on the same side.
pub open spec fn exp_stands_for(e: int, ec: int) -> bool {
    ||| ec == e
    ||| (ec >= 100_000_000_000_000_000_000_000_000_000 && e >= ec)
    ||| (ec <= -100_000_000_000_000_000_000_000_000_000 && e <= ec)
}

/// Reads a number: its sign, its digits and its exponent (see
/// `exp_stands_for`).
pub fn read_decimal(t: &[char]) -> (r: Option<(bool, Vec<u8>, i128)>)
    ensures
        match r {
            None => parse_decimal(t@) is None,
            Some(x) => parse_decimal(t@) matches Some(p) && p.0 == x.0 && p.1 == dv(dview(x.1@))
                && digits_ok(dview(x.1@)) && x.1@.len() >= 1 && exp_stands_for(p.2, x.2 as int)
                && -2 * (EXP_CAP as int) <= x.2 <= EXP_CAP as int,
        },
{
    let pct = t.len() > 0 && t[t.len() - 1] == '%';
    let end: usize = if pct {
        t.len() - 1
    } else {
        t.len()
    };
    let ghost body = if pct {
        t@.drop_last()
    } else {
        t@
    };
    assert(body =~= t@.subrange(0, end as int));
    let mut phase: u8 = 0;
    let mut neg = false;
    let mut digs: Vec<u8> = Vec::new();
    let mut scale: usize = 0;
    let mut eneg = false;
    let mut ev: u128 = 0;
    let ghost mut evs: nat = 0;
    let mut i: usize = 0;
    assert(dview(digs@) =~= Seq::<nat>::empty());
    assert(t@.subrange(0, 0) =~= Seq::<char>::empty());
    while i < end
        invariant
            end <= t@.len(),
            i <= end,
            pct == (t@.len() > 0 && t@.last() == '%'),
            body == (if pct {
                t@.drop_last()
            } else {
                t@
            }),
            body == t@.subrange(0, end as int),
            num_scan(t@.subrange(0, i as int)) == Some(
                Scan { phase: phase as nat, neg, digs: dview(digs@), scale: scale as nat, eneg, ev: evs },
            ),
            phase <= 6,
            scale <= i,
            digits_ok(dview(digs@)),
            ev as nat == if evs <= EXP_CAP {
                evs
            } else {
                EXP_CAP as nat
            },
        decreases end - i,
    {
        let c = t[i];
        let ghost pre = t@.subrange(0, i + 1);
        assert(pre.drop_last() =~= t@.subrange(0, i as int));
        assert(pre.last() == c);
        assert(body.subrange(0, i + 1) =~= pre);
        let ghost old_d = dview(digs@);
        if '0' <= c && c <= '9' {
            let d = digit_of(c);
            if phase <= 2 {
                phase = 2;
                digs.push(d as u8);
                assert(dview(digs@) =~= old_d.push(digit_val(c)));
            } else if phase == 3 {
                digs.push(d as u8);
                assert(dview(digs@) =~= old_d.push(digit_val(c)));
                scale = scale + 1;
            } else {
                phase = 6;
                proof {
                    evs = evs * 10 + digit_val(c);
                }
                if ev >= EXP_CAP {
                    ev = EXP_CAP;
                } else {
                    let nv = ev * 10 + d as u128;
                    ev = if nv > EXP_CAP { EXP_CAP } else { nv };
                }
            }
        } else if c == '-' && phase == 0 {
            phase = 1;
            neg = true;
        } else if c == '-' && phase == 4 {
            phase = 5;
            eneg = true;
        } else if c == '+' && phase == 4 {
            phase = 5;
        } else if c == '.' && phase <= 2 {
            phase = 3;
        } else if (c == 'e' || c == 'E') && (phase == 2 || phase == 3) && digs.len() >= 1 {
            phase = 4;
        } else {
            proof {
                lemma_num_scan_prefix(body, i + 1);
            }
            return None;
        }
        proof {
            assert forall|k: int| 0 <= k < dview(digs@).len() implies #[trigger] dview(digs@)[k] < 10 by {
                if k < old_d.len() {
                    assert(old_d[k] < 10);
                }
            }
        }
        i += 1;
    }
    assert(t@.subrange(0, end as int) =~= body);
    if !((phase == 2 || phase == 3 || phase == 6) && digs.len() >= 1) {
        return None;
    }
    let ev_i: i128 = ev as i128;
    let mut ec: i128 = if eneg {
        -ev_i
    } else {
        ev_i
    };
    ec = ec - scale as i128;
    if pct {
        ec = ec - 2;
    }
    Some((neg, digs, ec))
}

proof fn lemma_num_scan_prefix(s: Seq<char>, i: int)
    requires
        0 <= i <= s.len(),
        num_scan(s.subrange(0, i)) is None,
    ensures
        num_scan(s) is None,
    decreases s.len(),
{
    if i == s.len() {
        assert(s.subrange(0, i) =~= s);
    } else {
        assert(s.drop_last().subrange(0, i) =~= s.subrange(0, i));
        lemma_num_scan_prefix(s.drop_last(), i);
    }
}

/// Where twice a remainder `r` stands against a modulus `p`: 0 below, 1 equal,
/// 2 above.
pub open spec fn half_cmp(r: int, p: int) -> nat {
    if 2 * r < p {
        0
    } else if 2 * r == p {
        1
    } else {
        2
    }
}

/// For `y = n * dv(c)` and `p = 10^|c|`: the quotient `y / p`, and where the
/// remainder stands against half of `p`.
fn scaled_floor(c: &Vec<u8>, n: u64) -> (r: (u128, u8))
    requires
        c@.len() >= 1,
        digits_ok(dview(c@)),
        n >= 1,
    ensures
        r.0 as int == (n * dv(dview(c@))) as int / pow10(c@.len() as nat) as int,
        r.0 < n,
        r.1 as nat == half_cmp(
            (n * dv(dview(c@))) as int % pow10(c@.len() as nat) as int,
            pow10(c@.len() as nat) as int,
        ),
{
    let ghost cs = dview(c@);
    let len = c.len();
    let mut f: u128 = 0;
    let mut nz = false;
    let mut j: usize = 0;
    assert(cs.subrange(len as int, len as int) =~= Seq::<nat>::empty());
    assert(pow10(0) == 1);
    assert(dv(Seq::<nat>::empty()) == 0);
    assert((n * 0nat) as int / 1int == 0);
    assert((n * 0nat) as int % 1int == 0);
    while j + 1 < len
        invariant
            cs == dview(c@),
            len == c@.len(),
            digits_ok(cs),
            j < len,
            f as int == (n * dv(cs.subrange(len - j, len as int))) as int / pow10(j as nat) as int,
            nz == ((n * dv(cs.subrange(len - j, len as int))) as int % pow10(j as nat) as int != 0),
            f < n,
        decreases len - j,
    {
        let x = c[len - 1 - j];
        proof {
            step_facts(cs, len as int, j as int, n as nat);
        }
        let a: u128 = (n as u128) * (x as u128) + f;
        f = a / 10;
        nz = (a % 10 != 0) || nz;
        j += 1;
    }
    let x = c[0];
    proof {
        step_facts(cs, len as int, j as int, n as nat);
        assert(cs.subrange(0, len as int) =~= cs);
    }
    let a: u128 = (n as u128) * (x as u128) + f;
    let u = a % 10;
    let cmp: u8 = if u < 5 {
        0
    } else if u == 5 {
        if nz {
            2
        } else {
            1
        }
    } else {
        2
    };
    (a / 10, cmp)
}

/// One more digit, the `j+1`-th from the right, in the quotient and remainder
/// by powers of ten.
proof fn step_facts(cs: Seq<nat>, len: int, j: int, n: nat)
    requires
        0 <= j < len,
        len == cs.len(),
        digits_ok(cs),
    ensures
        ({
            let w = dv(cs.subrange(len - j, len));
            let w2 = dv(cs.subrange(len - j - 1, len));
            let b = pow10(j as nat) as int;
            let x = cs[len - j - 1];
            let y = (n * w) as int;
            let a = n * x + y / b;
            let y2 = (n * w2) as int;
            &&& y2 / (10 * b) == a / 10
            &&& y2 % (10 * b) == (a % 10) * b + y % b
            &&& (y2 % (10 * b) != 0) == (a % 10 != 0 || y % b != 0)
            &&& y / b < n || n == 0
            &&& (n > 0 ==> y2 / (10 * b) < n)
            &&& pow10((j + 1) as nat) == 10 * b
            &&& x < 10
            &&& half_cmp(y2 % (10 * b), 10 * b) == (if a % 10 < 5 {
                0nat
            } else if a % 10 == 5 {
                if y % b != 0 {
                    2nat
                } else {
                    1nat
                }
            } else {
                2nat
            })
        }),
{
    let sub = cs.subrange(len - j, len);
    let sub2 = cs.subrange(len - j - 1, len);
    assert(sub2 =~= seq![cs[len - j - 1]] + sub);
    lemma_dv_concat(seq![cs[len - j - 1]], sub);
    assert(seq![cs[len - j - 1]].drop_last() =~= Seq::<nat>::empty());
    assert(dv(Seq::<nat>::empty()) == 0);
    assert(dv(seq![cs[len - j - 1]]) == cs[len - j - 1]);
    assert(digits_ok(sub)) by {
        assert forall|i: int| 0 <= i < sub.len() implies #[trigger] sub[i] < 10 by {
            assert(sub[i] == cs[len - j + i]);
        }
    }
    assert(digits_ok(sub2)) by {
        assert forall|i: int| 0 <= i < sub2.len() implies #[trigger] sub2[i] < 10 by {
            assert(sub2[i] == cs[len - j - 1 + i]);
        }
    }
    lemma_dv_bounds(sub);
    lemma_dv_bounds(sub2);
    lemma_pow10_mono(0, j as nat);
    let w = dv(sub);
    let w2 = dv(sub2);
    let b = pow10(j as nat) as int;
    let x = cs[len - j - 1];
    assert(x < 10);
    assert(sub.len() == j);
    assert(pow10((j + 1) as nat) == 10 * b);
    assert(w2 == x * b + w);
    let y = (n * w) as int;
    let q = y / b;
    let r = y % b;
    assert(y == q * b + r && 0 <= r < b) by {
        vstd::arithmetic::div_mod::lemma_fundamental_div_mod(y, b);
        assert(b * q == q * b) by (nonlinear_arith);
    }
    let a = n * x + q;
    let y2 = (n * w2) as int;
    assert(y2 == a * b + r) by (nonlinear_arith)
        requires
            w2 == x * b + w,
            y == n * w,
            y2 == n * w2,
            y == q * b + r,
            a == n * x + q,
    ;
    assert(q >= 0) by (nonlinear_arith)
        requires
            y == q * b + r,
            y >= 0,
            0 <= r < b,
    ;
    let aq = a / 10;
    let au = a % 10;
    assert(a == aq * 10 + au && 0 <= au < 10);
    assert(y2 == aq * (10 * b) + (au * b + r)) by (nonlinear_arith)
        requires
            y2 == a * b + r,
            a == aq * 10 + au,
    ;
    assert(0 <= au * b + r < 10 * b) by (nonlinear_arith)
        requires
            0 <= au < 10,
            0 <= r < b,
    ;
    lemma_fundamental_div_mod_converse(y2, 10 * b, aq, au * b + r);
    assert((au * b + r != 0) == (au != 0 || r != 0)) by (nonlinear_arith)
        requires
            0 <= au,
            0 <= r,
            b > 0,
    ;
    if n > 0 {
        assert(y < n * b) by (nonlinear_arith)
            requires
                y == n * w,
                w < b,
                n > 0,
        ;
        assert(q < n) by (nonlinear_arith)
            requires
                y == q * b + r,
                0 <= r,
                y < n * b,
                b > 0,
        ;
        assert(y2 < n * (10 * b)) by (nonlinear_arith)
            requires
                y2 == n * w2,
                w2 < 10 * b,
                n > 0,
        ;
        assert(aq < n) by (nonlinear_arith)
            requires
                y2 == aq * (10 * b) + (au * b + r),
                0 <= au * b + r,
                y2 < n * (10 * b),
                b > 0,
        ;
    }
    assert(y2 / (10 * b) == a / 10);
    assert(y2 % (10 * b) == (a % 10) * b + y % b);
    assert((y2 % (10 * b) != 0) == (a % 10 != 0 || y % b != 0));
    if au < 5 {
        assert(2 * (au * b + r) < 10 * b) by (nonlinear_arith)
            requires
                au <= 4,
                0 <= r < b,
        ;
    } else if au == 5 {
    } else {
        assert(2 * (au * b + r) > 10 * b) by (nonlinear_arith)
            requires
                au >= 6,
                0 <= r,
                b > 0,
        ;
    }
    assert(half_cmp(y2 % (10 * b), 10 * b) == (if a % 10 < 5 {
        0nat
    } else if a % 10 == 5 {
        if y % b != 0 {
            2nat
        } else {
            1nat
        }
    } else {
        2nat
    }));
    assert(n == 0 || y / b < n);
}

/// Rounding of `x / d` to the nearest whole number, halves upwards.
pub open spec fn round_div(x: int, d: int) -> int {
    (2 * x + d) / (2 * d)
}

pub open spec fn clamp(v: int, lo: int, hi: int) -> int {
    if v < lo {
        lo
    } else if v > hi {
        hi
    } else {
        v
    }
}

/// The denominator of `10^e` written as a fraction.
pub open spec fn den_of(e: int) -> int {
    if e >= 0 {
        1
    } else {
        pow10((-e) as nat) as int
    }
}

/// The numerator of `±m * 10^e` over `den_of(e)`.
pub open spec fn num_of(x: (bool, nat, int)) -> int {
    let a = if x.2 >= 0 {
        (x.1 * pow10(x.2 as nat)) as int
    } else {
        x.1 as int
    };
    if x.0 {
        -a
    } else {
        a
    }
}

/// The hop for a hop ratio `x` of `n`: `round(x * n)`, clamped to `[1, n]`.
pub open spec fn ratio_hop(x: (bool, nat, int), n: nat) -> int {
    clamp(round_div(num_of(x) * n, den_of(x.2)), 1, n as int)
}

/// The hop for an overlap `x` of `n`: `round((1 - x) * n)`, clamped to `[1, n]`.
pub open spec fn overlap_hop(x: (bool, nat, int), n: nat) -> int {
    clamp(round_div((den_of(x.2) - num_of(x)) * n, den_of(x.2)), 1, n as int)
}

proof fn lemma_quot(y: int, dd: int, q: int, r: int)
    requires
        dd > 0,
        0 <= r < dd,
        y == q * dd + r,
    ensures
        y / dd == q,
{
    lemma_fundamental_div_mod_converse(y, dd, q, r);
}

proof fn lemma_round_low(x: int, d: int)
    requires
        d >= 1,
        x <= 0,
    ensures
        round_div(x, d) <= 0,
{
    let y = 2 * x + d;
    let q = y / (2 * d);
    vstd::arithmetic::div_mod::lemma_fundamental_div_mod(y, 2 * d);
    assert(q <= 0) by (nonlinear_arith)
        requires
            y == (2 * d) * q + y % (2 * d),
            0 <= y % (2 * d),
            y < 2 * d,
            d >= 1,
    ;
}

proof fn lemma_round_high(x: int, d: int, n: int)
    requires
        d >= 1,
        n >= 0,
        x >= d * n,
    ensures
        round_div(x, d) >= n,
{
    let y = 2 * x + d;
    let q = y / (2 * d);
    vstd::arithmetic::div_mod::lemma_fundamental_div_mod(y, 2 * d);
    assert(y >= 2 * d * n + d) by (nonlinear_arith)
        requires
            y == 2 * x + d,
            x >= d * n,
    ;
    assert(q >= n) by (nonlinear_arith)
        requires
            y == (2 * d) * q + y % (2 * d),
            y % (2 * d) < 2 * d,
            y >= 2 * d * n + d,
            d >= 1,
    ;
}

/// A number `x` of `n` with `m == 0`.
proof fn lemma_case_zero(x: (bool, nat, int), n: nat)
    requires
        x.1 == 0,
        n >= 1,
    ensures
        ratio_hop(x, n) == 1,
        overlap_hop(x, n) == n,
{
    let den = den_of(x.2);
    den_pos(x.2);
    if x.2 >= 0 {
        assert(x.1 * pow10(x.2 as nat) == 0);
    }
    assert(num_of(x) == 0);
    lemma_round_low(0, den);
    assert((den - 0) * n == den * n) by (nonlinear_arith);
    lemma_round_high(den * n, den, n as int);
    assert(2 * (den * n) + den < 2 * den * (n + 1)) by (nonlinear_arith)
        requires
            den >= 1,
    ;
    round_below(den * n, den, n as int + 1);
}

pub proof fn den_pos(e: int)
    ensures
        den_of(e) >= 1,
{
    if e < 0 {
        lemma_pow10_mono(0, (-e) as nat);
    }
}

proof fn round_below(x: int, d: int, k: int)
    requires
        d >= 1,
        2 * x + d < 2 * d * k,
    ensures
        round_div(x, d) < k,
{
    let y = 2 * x + d;
    vstd::arithmetic::div_mod::lemma_fundamental_div_mod(y, 2 * d);
    assert(y / (2 * d) < k) by (nonlinear_arith)
        requires
            y == (2 * d) * (y / (2 * d)) + y % (2 * d),
            0 <= y % (2 * d),
            y < 2 * d * k,
            d >= 1,
    ;
}

/// A negative number `x` of `n`.
proof fn lemma_case_neg(x: (bool, nat, int), n: nat)
    requires
        x.0,
        x.1 >= 1,
        n >= 1,
    ensures
        ratio_hop(x, n) == 1,
        overlap_hop(x, n) == n,
{
    let den = den_of(x.2);
    den_pos(x.2);
    let m = x.1;
    let a = if x.2 >= 0 {
        (m * pow10(x.2 as nat)) as int
    } else {
        m as int
    };
    if x.2 >= 0 {
        lemma_pow10_mono(0, x.2 as nat);
        assert(a >= 1) by (nonlinear_arith)
            requires
                a == m * pow10(x.2 as nat),
                m >= 1,
                pow10(x.2 as nat) >= 1,
        ;
    }
    assert(num_of(x) == -a);
    assert(num_of(x) * n <= 0) by (nonlinear_arith)
        requires
            num_of(x) == -a,
            a >= 1,
            n >= 1,
    ;
    lemma_round_low(num_of(x) * n, den);
    assert((den - num_of(x)) * n >= den * n) by (nonlinear_arith)
        requires
            num_of(x) <= 0,
            n >= 1,
    ;
    lemma_round_high((den - num_of(x)) * n, den, n as int);
}

/// A positive number `x` of at least one, `m` having `d` digits.
proof fn lemma_case_big(x: (bool, nat, int), n: nat, d: nat)
    requires
        !x.0,
        d >= 1,
        pow10((d - 1) as nat) <= x.1,
        d - 1 + x.2 >= 0,
        n >= 1,
    ensures
        ratio_hop(x, n) == n,
        overlap_hop(x, n) == 1,
{
    let den = den_of(x.2);
    den_pos(x.2);
    let m = x.1;
    lemma_pow10_mono(0, (d - 1) as nat);
    if x.2 >= 0 {
        lemma_pow10_mono(0, x.2 as nat);
        assert(num_of(x) >= 1) by (nonlinear_arith)
            requires
                num_of(x) == m * pow10(x.2 as nat),
                m >= 1,
                pow10(x.2 as nat) >= 1,
        ;
    } else {
        lemma_pow10_mono((-x.2) as nat, (d - 1) as nat);
        assert(num_of(x) == m);
    }
    assert(num_of(x) >= den);
    assert(num_of(x) * n >= den * n) by (nonlinear_arith)
        requires
            num_of(x) >= den,
            n >= 1,
    ;
    lemma_round_high(num_of(x) * n, den, n as int);
    assert((den - num_of(x)) * n <= 0) by (nonlinear_arith)
        requires
            num_of(x) >= den,
            n >= 1,
    ;
    lemma_round_low((den - num_of(x)) * n, den);
}

/// A positive number `x` below `10^-20`, `m` having `d` digits.
proof fn lemma_case_tiny(x: (bool, nat, int), n: nat, d: nat)
    requires
        !x.0,
        d >= 1,
        x.1 < pow10(d),
        d - 1 + x.2 <= -21,
        1 <= n <= 18_446_744_073_709_551_615,
    ensures
        ratio_hop(x, n) == 1,
        overlap_hop(x, n) == n,
{
    let m = x.1;
    let e = x.2;
    let l = (-e) as nat;
    let p = den_of(e);
    assert(p == pow10(l) as int);
    assert(num_of(x) == m);
    lemma_pow10_add(d, 20);
    lemma_pow10_mono(d + 20, l);
    reveal_with_fuel(pow10, 21);
    assert(pow10(20) == 100_000_000_000_000_000_000);
    assert(2 * m * n < p) by (nonlinear_arith)
        requires
            m < pow10(d),
            n <= 18_446_744_073_709_551_615,
            n >= 1,
            pow10(d + 20) == pow10(d) * pow10(20),
            pow10(20) == 100_000_000_000_000_000_000,
            pow10(d + 20) <= p,
    ;
    assert(m * n >= 0) by (nonlinear_arith);
    assert(2 * (m * n) == 2 * m * n) by (nonlinear_arith);
    assert(0 * (2 * p) == 0);
    lemma_quot(2 * (m * n) + p, 2 * p, 0, 2 * (m * n) + p);
    assert(2 * ((p - m) * n) + p == n * (2 * p) + (p - 2 * m * n)) by (nonlinear_arith);
    lemma_quot(2 * ((p - m) * n) + p, 2 * p, n as int, p - 2 * m * n);
}

/// A positive number `x = m / p` below one, with `y = n * m == q * p + rr`.
proof fn lemma_case_mid(x: (bool, nat, int), n: nat, q: int, rr: int)
    requires
        !x.0,
        x.2 < 0,
        n >= 1,
        0 <= q < n,
        0 <= rr < den_of(x.2),
        n * x.1 == q * den_of(x.2) + rr,
    ensures
        ratio_hop(x, n) == clamp(q + (if 2 * rr >= den_of(x.2) { 1int } else { 0int }), 1, n as int),
        overlap_hop(x, n) == clamp(n - q - (if 2 * rr > den_of(x.2) { 1int } else { 0int }), 1, n as int),
{
    let m = x.1;
    let p = den_of(x.2);
    den_pos(x.2);
    assert(num_of(x) == m);
    assert(2 * ((p - m) * n) + p == (n - q) * (2 * p) + (p - 2 * rr)) by (nonlinear_arith)
        requires
            n * m == q * p + rr,
    ;
    if 2 * rr > p {
        assert((n - q) * (2 * p) + (p - 2 * rr) == (n - q - 1) * (2 * p) + (3 * p - 2 * rr)) by (nonlinear_arith);
        lemma_quot(2 * ((p - m) * n) + p, 2 * p, n - q - 1, 3 * p - 2 * rr);
    } else {
        lemma_quot(2 * ((p - m) * n) + p, 2 * p, n - q, p - 2 * rr);
    }
    assert(2 * (m * n) + p == q * (2 * p) + (2 * rr + p)) by (nonlinear_arith)
        requires
            n * m == q * p + rr,
    ;
    if 2 * rr >= p {
        assert(q * (2 * p) + (2 * rr + p) == (q + 1) * (2 * p) + (2 * rr - p)) by (nonlinear_arith);
        lemma_quot(2 * (m * n) + p, 2 * p, q + 1, 2 * rr - p);
    } else {
        lemma_quot(2 * (m * n) + p, 2 * p, q, 2 * rr + p);
    }
}

/// `z` zero digits followed by the digits of `digs` from position `f` on.
fn zeros_then(digs: &Vec<u8>, f: usize, z: usize) -> (c: Vec<u8>)
    requires
        f <= digs@.len(),
    ensures
        dview(c@) == Seq::<nat>::new(z as nat, |i: int| 0nat) + dview(digs@).subrange(f as int, digs@.len() as int),
{
    let mut c: Vec<u8> = Vec::new();
    let mut k: usize = 0;
    while k < z
        invariant
            k <= z,
            dview(c@) =~= Seq::<nat>::new(k as nat, |i: int| 0nat),
        decreases z - k,
    {
        let ghost old = dview(c@);
        c.push(0);
        assert(dview(c@) =~= old.push(0nat));
        k += 1;
    }
    let ghost zp = dview(c@);
    let mut i = f;
    while i < digs.len()
        invariant
            f <= i <= digs@.len(),
            zp == Seq::<nat>::new(z as nat, |i: int| 0nat),
            dview(c@) =~= zp + dview(digs@).subrange(f as int, i as int),
        decreases digs@.len() - i,
    {
        let ghost old = dview(c@);
        c.push(digs[i]);
        assert(dview(c@) =~= old.push(dview(digs@)[i as int]));
        assert(dview(digs@).subrange(f as int, i + 1) =~= dview(digs@).subrange(f as int, i as int).push(
            dview(digs@)[i as int],
        ));
        i += 1;
    }
    c
}

/// The hop that a number gives as a hop ratio (or, where `overlap`, as an
/// overlap) of `n`.
pub fn hop_for(neg: bool, digs: &Vec<u8>, ec: i128, Ghost(e): Ghost<int>, n: u64, overlap: bool) -> (r: u64)
    requires
        digits_ok(dview(digs@)),
        digs@.len() >= 1,
        exp_stands_for(e, ec as int),
        -2 * (EXP_CAP as int) <= ec <= EXP_CAP as int,
        n >= 1,
    ensures
        r as int == if overlap {
            overlap_hop((neg, dv(dview(digs@)), e), n as nat)
        } else {
            ratio_hop((neg, dv(dview(digs@)), e), n as nat)
        },
{
    let ghost ds = dview(digs@);
    let ghost m = dv(ds);
    let ghost x = (neg, m, e);
    let len = digs.len();
    let mut f: usize = 0;
    while f < len && digs[f] == 0
        invariant
            ds == dview(digs@),
            len == digs@.len(),
            f <= len,
            forall|k: int| 0 <= k < f ==> #[trigger] ds[k] == 0,
        decreases len - f,
    {
        f += 1;
    }
    let ghost zs = ds.subrange(0, f as int);
    let ghost sfx = ds.subrange(f as int, len as int);
    proof {
        assert(ds =~= zs + sfx);
        lemma_dv_concat(zs, sfx);
        lemma_dv_zero(zs);
        assert forall|k: int| 0 <= k < zs.len() implies #[trigger] zs[k] == 0 by {
            assert(zs[k] == ds[k]);
        }
        assert(dv(zs) == 0);
        assert(m == dv(sfx));
    }
    if f == len {
        proof {
            assert(sfx.len() == 0);
            lemma_case_zero(x, n as nat);
        }
        return if overlap {
            n
        } else {
            1
        };
    }
    proof {
        assert(digits_ok(sfx)) by {
            assert forall|k: int| 0 <= k < sfx.len() implies #[trigger] sfx[k] < 10 by {
                assert(sfx[k] == ds[f + k]);
            }
        }
        assert(sfx[0] == ds[f as int]);
        lemma_dv_bounds(sfx);
    }
    let d = len - f;
    if neg {
        proof {
            lemma_pow10_mono(0, (d - 1) as nat);
            lemma_case_neg(x, n as nat);
        }
        return if overlap {
            n
        } else {
            1
        };
    }
    let tc: i128 = (d as i128) - 1 + ec;
    if tc >= 0 {
        proof {
            lemma_case_big(x, n as nat, d as nat);
        }
        return if overlap {
            1
        } else {
            n
        };
    }
    if tc <= -21 {
        proof {
            lemma_case_tiny(x, n as nat, d as nat);
        }
        return if overlap {
            n
        } else {
            1
        };
    }
    let z: usize = (-tc - 1) as usize;
    let c = zeros_then(digs, f, z);
    let ghost zp = Seq::<nat>::new(z as nat, |i: int| 0nat);
    proof {
        assert(e == ec);
        lemma_dv_concat(zp, sfx);
        lemma_dv_zero(zp);
        assert(dv(dview(c@)) == m);
        assert(digits_ok(dview(c@))) by {
            assert forall|k: int| 0 <= k < dview(c@).len() implies #[trigger] dview(c@)[k] < 10 by {
                if k >= z {
                    assert(dview(c@)[k] == sfx[k - z]);
                }
            }
        }
        assert(den_of(e) == pow10(c@.len() as nat) as int);
    }
    let (q, cmp) = scaled_floor(&c, n);
    proof {
        let p = den_of(e);
        den_pos(e);
        let y = (n * m) as int;
        vstd::arithmetic::div_mod::lemma_fundamental_div_mod(y, p);
        assert(y == (q as int) * p + y % p) by (nonlinear_arith)
            requires
                y == p * (y / p) + y % p,
                q as int == y / p,
        ;
        lemma_case_mid(x, n as nat, q as int, y % p);
    }
    if overlap {
        let h: u128 = if cmp == 2 {
            (n as u128) - q - 1
        } else {
            (n as u128) - q
        };
        clamp_u(h, n)
    } else {
        let h: u128 = if cmp >= 1 {
            q + 1
        } else {
            q
        };
        clamp_u(h, n)
    }
}

/// The whole number that `x` denotes, where it is one from 0 to `u64::MAX`.
pub open spec fn uint_of(x: (bool, nat, int)) -> Option<nat> {
    let a = num_of(x);
    let dd = den_of(x.2);
    if a % dd == 0 && a >= 0 && a / dd <= u64::MAX {
        Some((a / dd) as nat)
    } else {
        None
    }
}

/// The value of the digits from `from` up to `to`, at most twenty of them.
fn digits_value(digs: &Vec<u8>, from: usize, to: usize) -> (r: u128)
    requires
        from <= to <= digs@.len(),
        to - from <= 20,
        digits_ok(dview(digs@)),
    ensures
        r as nat == dv(dview(digs@).subrange(from as int, to as int)),
        (r as nat) < pow10((to - from) as nat),
{
    let ghost ds = dview(digs@);
    let mut v: u128 = 0;
    let mut i = from;
    proof {
        assert(ds.subrange(from as int, from as int) =~= Seq::<nat>::empty());
        assert(pow10(0) == 1);
        reveal_with_fuel(pow10, 21);
        lemma_pow10_mono((to - from) as nat, 20);
        assert(pow10(20) == 100_000_000_000_000_000_000);
    }
    while i < to
        invariant
            from <= i <= to,
            to <= digs@.len(),
            to - from <= 20,
            ds == dview(digs@),
            digits_ok(ds),
            v as nat == dv(ds.subrange(from as int, i as int)),
            (v as nat) < pow10((i - from) as nat),
            pow10((to - from) as nat) <= 100_000_000_000_000_000_000,
        decreases to - i,
    {
        proof {
            lemma_pow10_mono((i + 1 - from) as nat, (to - from) as nat);
            assert(ds[i as int] < 10);
            assert(ds.subrange(from as int, i + 1).drop_last() =~= ds.subrange(from as int, i as int));
            assert(v * 10 + ds[i as int] < 10 * pow10((i - from) as nat)) by (nonlinear_arith)
                requires
                    v < pow10((i - from) as nat),
                    ds[i as int] < 10,
            ;
            assert(pow10((i + 1 - from) as nat) == 10 * pow10((i - from) as nat));
        }
        v = v * 10 + digs[i] as u128;
        i += 1;
    }
    v
}

proof fn lemma_uint_zero(x: (bool, nat, int))
    requires
        x.1 == 0,
    ensures
        uint_of(x) == Some(0nat),
{
    den_pos(x.2);
    if x.2 >= 0 {
        assert(x.1 * pow10(x.2 as nat) == 0) by (nonlinear_arith)
            requires
                x.1 == 0,
        ;
    }
    assert(num_of(x) == 0);
    lemma_fundamental_div_mod_converse(0, den_of(x.2), 0, 0);
}

proof fn lemma_uint_neg(x: (bool, nat, int))
    requires
        x.0,
        x.1 >= 1,
    ensures
        uint_of(x) is None,
{
    if x.2 >= 0 {
        lemma_pow10_mono(0, x.2 as nat);
        assert(x.1 * pow10(x.2 as nat) >= 1) by (nonlinear_arith)
            requires
                x.1 >= 1,
                pow10(x.2 as nat) >= 1,
        ;
    }
    assert(num_of(x) < 0);
}

proof fn lemma_uint_fraction(x: (bool, nat, int), d: nat)
    requires
        !x.0,
        1 <= x.1 < pow10(d),
        d - 1 + x.2 < 0,
    ensures
        uint_of(x) is None,
{
    let l = (-x.2) as nat;
    lemma_pow10_mono(d, l);
    assert(num_of(x) == x.1);
    lemma_fundamental_div_mod_converse(x.1 as int, den_of(x.2), 0, x.1 as int);
}

proof fn lemma_uint_huge(x: (bool, nat, int), d: nat)
    requires
        !x.0,
        d >= 1,
        pow10((d - 1) as nat) <= x.1,
        d - 1 + x.2 >= 20,
    ensures
        uint_of(x) is None,
{
    let m = x.1;
    let e = x.2;
    let t = (d - 1 + e) as nat;
    reveal_with_fuel(pow10, 21);
    lemma_pow10_mono(20, t);
    assert(pow10(20) == 100_000_000_000_000_000_000);
    den_pos(e);
    if e >= 0 {
        lemma_pow10_add((d - 1) as nat, e as nat);
        assert(num_of(x) >= pow10(t)) by (nonlinear_arith)
            requires
                num_of(x) == m * pow10(e as nat),
                m >= pow10((d - 1) as nat),
                pow10(t) == pow10((d - 1) as nat) * pow10(e as nat),
        ;
        lemma_fundamental_div_mod_converse(num_of(x), 1, num_of(x), 0);
    } else {
        let k = (-e) as nat;
        lemma_pow10_add(t, k);
        let dd = den_of(e);
        let mi = m as int;
        assert(num_of(x) == mi);
        if mi % dd == 0 {
            vstd::arithmetic::div_mod::lemma_fundamental_div_mod(mi, dd);
            assert(mi / dd >= pow10(t)) by (nonlinear_arith)
                requires
                    mi == dd * (mi / dd) + mi % dd,
                    mi % dd == 0,
                    mi >= pow10(t) * dd,
                    dd >= 1,
            ;
        }
    }
}

proof fn lemma_uint_scaled(x: (bool, nat, int))
    requires
        !x.0,
        x.2 >= 0,
    ensures
        uint_of(x) == (if x.1 * pow10(x.2 as nat) <= u64::MAX {
            Some(x.1 * pow10(x.2 as nat))
        } else {
            None
        }),
{
    lemma_fundamental_div_mod_converse(num_of(x), 1, num_of(x), 0);
}

proof fn lemma_uint_split(x: (bool, nat, int), ga: nat, gb: nat)
    requires
        !x.0,
        x.2 < 0,
        x.1 == ga * pow10((-x.2) as nat) + gb,
        gb < pow10((-x.2) as nat),
    ensures
        uint_of(x) == (if gb != 0 {
            None
        } else if ga <= u64::MAX {
            Some(ga)
        } else {
            None
        }),
{
    assert(num_of(x) == x.1);
    lemma_fundamental_div_mod_converse(x.1 as int, den_of(x.2), ga as int, gb as int);
}

/// The whole number that a number denotes, see `uint_of`.
pub fn uint_for(neg: bool, digs: &Vec<u8>, ec: i128, Ghost(e): Ghost<int>) -> (r: Option<u64>)
    requires
        digits_ok(dview(digs@)),
        digs@.len() >= 1,
        exp_stands_for(e, ec as int),
        -2 * (EXP_CAP as int) <= ec <= EXP_CAP as int,
    ensures
        match r {
            Some(v) => uint_of((neg, dv(dview(digs@)), e)) == Some(v as nat),
            None => uint_of((neg, dv(dview(digs@)), e)) is None,
        },
{
    let ghost ds = dview(digs@);
    let ghost m = dv(ds);
    let ghost x = (neg, m, e);
    let len = digs.len();
    let mut f: usize = 0;
    while f < len && digs[f] == 0
        invariant
            ds == dview(digs@),
            len == digs@.len(),
            f <= len,
            forall|k: int| 0 <= k < f ==> #[trigger] ds[k] == 0,
        decreases len - f,
    {
        f += 1;
    }
    let ghost zs = ds.subrange(0, f as int);
    let ghost sfx = ds.subrange(f as int, len as int);
    proof {
        assert(ds =~= zs + sfx);
        lemma_dv_concat(zs, sfx);
        lemma_dv_zero(zs);
        assert forall|k: int| 0 <= k < zs.len() implies #[trigger] zs[k] == 0 by {
            assert(zs[k] == ds[k]);
        }
        assert(dv(zs) == 0);
        assert(m == dv(sfx));
        assert(digits_ok(sfx)) by {
            assert forall|k: int| 0 <= k < sfx.len() implies #[trigger] sfx[k] < 10 by {
                assert(sfx[k] == ds[f + k]);
            }
        }
    }
    if f == len {
        proof {
            assert(sfx =~= Seq::<nat>::empty());
            assert(m == 0);
            lemma_uint_zero(x);
        }
        return Some(0);
    }
    proof {
        assert(sfx[0] == ds[f as int]);
        lemma_dv_bounds(sfx);
        lemma_pow10_mono(0, (len - f - 1) as nat);
    }
    let d = len - f;
    if neg {
        proof {
            lemma_uint_neg(x);
        }
        return None;
    }
    let tc: i128 = (d as i128) - 1 + ec;
    if tc < 0 {
        proof {
            lemma_uint_fraction(x, d as nat);
        }
        return None;
    }
    if tc >= 20 {
        proof {
            lemma_uint_huge(x, d as nat);
        }
        return None;
    }
    let ghost ee = e;
    assert(e == ec);
    if ec >= 0 {
        let ez = ec as usize;
        let mut v = digits_value(digs, f, len);
        let mut j: usize = 0;
        proof {
            reveal_with_fuel(pow10, 21);
            lemma_pow10_add(d as nat, ez as nat);
            lemma_pow10_mono((d + ez) as nat, 20);
            assert(pow10(20) == 100_000_000_000_000_000_000);
            assert(pow10(0) == 1);
        }
        while j < ez
            invariant
                j <= ez,
                ez as int == ee,
                d + ez <= 20,
                v as nat == m * pow10(j as nat),
                (v as nat) < pow10((d + j) as nat),
                pow10((d + ez) as nat) <= 100_000_000_000_000_000_000,
            decreases ez - j,
        {
            proof {
                lemma_pow10_mono((d + j + 1) as nat, (d + ez) as nat);
                assert(pow10((j + 1) as nat) == 10 * pow10(j as nat));
                assert(pow10((d + j + 1) as nat) == 10 * pow10((d + j) as nat));
                assert(m * (10 * pow10(j as nat)) == 10 * (m * pow10(j as nat))) by (nonlinear_arith);
            }
            v = v * 10;
            j += 1;
        }
        proof {
            lemma_uint_scaled(x);
        }
        if v > u64::MAX as u128 {
            return None;
        }
        return Some(v as u64);
    }
    let k: usize = (-ec) as usize;
    let cut = len - k;
    let mut i = cut;
    while i < len && digs[i] == 0
        invariant
            cut <= i <= len,
            len == digs@.len(),
            ds == dview(digs@),
            forall|q: int| cut <= q < i ==> #[trigger] ds[q] == 0,
        decreases len - i,
    {
        i += 1;
    }
    let ghost ga = ds.subrange(f as int, cut as int);
    let ghost gb = ds.subrange(cut as int, len as int);
    proof {
        assert(sfx =~= ga + gb);
        lemma_dv_concat(ga, gb);
        assert(digits_ok(gb)) by {
            assert forall|q: int| 0 <= q < gb.len() implies #[trigger] gb[q] < 10 by {
                assert(gb[q] == ds[cut + q]);
            }
        }
        lemma_dv_bounds(gb);
        lemma_dv_zero(gb);
        lemma_uint_split(x, dv(ga), dv(gb));
    }
    if i < len {
        proof {
            assert(ds[i as int] == digs@[i as int] as nat);
            assert(gb[i - cut] == ds[i as int]);
            assert(gb[i - cut] != 0);
        }
        return None;
    }
    proof {
        assert forall|q: int| 0 <= q < gb.len() implies #[trigger] gb[q] == 0 by {
            assert(gb[q] == ds[cut + q]);
        }
    }
    let v = digits_value(digs, f, cut);
    if v > u64::MAX as u128 {
        return None;
    }
    Some(v as u64)
}

fn clamp_u(h: u128, n: u64) -> (r: u64)
    requires
        n >= 1,
    ensures
        r as int == clamp(h as int, 1, n as int),
{
    if h < 1 {
        1
    } else if h > n as u128 {
        n
    } else {
        h as u64
    }
}

} // verus!
