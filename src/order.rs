//! Total orders: on texts (by character code) and on canonical nodes.
use vstd::prelude::*;
use crate::alias::{PadMode, WindowKind};
use crate::normalize::{CNode, CanonNode, WParams};

verus! {

/// Lexicographic order on texts, by character code.
pub open spec fn seq_le(a: Seq<char>, b: Seq<char>) -> bool
    decreases a.len(),
{
    if a.len() == 0 {
        true
    } else if b.len() == 0 {
        false
    } else if a[0] < b[0] {
        true
    } else if a[0] > b[0] {
        false
    } else {
        seq_le(a.drop_first(), b.drop_first())
    }
}

pub open spec fn seq_lt(a: Seq<char>, b: Seq<char>) -> bool {
    seq_le(a, b) && a != b
}

pub proof fn lemma_seq_le_refl(a: Seq<char>)
    ensures
        seq_le(a, a),
    decreases a.len(),
{
    if a.len() > 0 {
        lemma_seq_le_refl(a.drop_first());
    }
}

pub proof fn lemma_seq_le_total(a: Seq<char>, b: Seq<char>)
    ensures
        seq_le(a, b) || seq_le(b, a),
    decreases a.len(),
{
    if a.len() > 0 && b.len() > 0 {
        lemma_seq_le_total(a.drop_first(), b.drop_first());
    }
}

pub proof fn lemma_seq_le_antisym(a: Seq<char>, b: Seq<char>)
    requires
        seq_le(a, b),
        seq_le(b, a),
    ensures
        a == b,
    decreases a.len(),
{
    if a.len() > 0 && b.len() > 0 {
        lemma_seq_le_antisym(a.drop_first(), b.drop_first());
        assert(a[0] == b[0]);
        assert(a =~= seq![a[0]] + a.drop_first());
        assert(b =~= seq![b[0]] + b.drop_first());
    }
}

pub proof fn lemma_seq_le_trans(a: Seq<char>, b: Seq<char>, c: Seq<char>)
    requires
        seq_le(a, b),
        seq_le(b, c),
    ensures
        seq_le(a, c),
    decreases a.len(),
{
    if a.len() > 0 && b.len() > 0 && c.len() > 0 {
        if a[0] == b[0] && b[0] == c[0] {
            lemma_seq_le_trans(a.drop_first(), b.drop_first(), c.drop_first());
        }
    }
}

/// `a` comes before or equals `b` by character code.
pub fn chars_le(a: &[char], b: &[char]) -> (r: bool)
    ensures
        r == seq_le(a@, b@),
{
    let mut i: usize = 0;
    assert(a@.subrange(0, a@.len() as int) =~= a@);
    assert(b@.subrange(0, b@.len() as int) =~= b@);
    while i < a.len() && i < b.len()
        invariant
            i <= a@.len(),
            i <= b@.len(),
            seq_le(a@, b@) == seq_le(a@.subrange(i as int, a@.len() as int), b@.subrange(i as int, b@.len() as int)),
        decreases a@.len() - i,
    {
        let x = a[i];
        let y = b[i];
        proof {
            let sa = a@.subrange(i as int, a@.len() as int);
            let sb = b@.subrange(i as int, b@.len() as int);
            assert(sa[0] == a@[i as int]);
            assert(sb[0] == b@[i as int]);
            assert(sa.drop_first() =~= a@.subrange(i + 1, a@.len() as int));
            assert(sb.drop_first() =~= b@.subrange(i + 1, b@.len() as int));
        }
        if x < y {
            return true;
        }
        if x > y {
            return false;
        }
        i += 1;
    }
    i == a.len()
}

pub open spec fn op_rank(n: CNode) -> nat {
    match n {
        CNode::A => 0,
        CNode::Align => 1,
        CNode::C => 2,
        CNode::D(..) => 3,
        CNode::Phi => 4,
        CNode::T => 5,
        CNode::W(_) => 6,
    }
}

pub open spec fn window_rank(w: WindowKind) -> nat {
    match w {
        WindowKind::Blackman => 0,
        WindowKind::Hamming => 1,
        WindowKind::Hann => 2,
    }
}

pub open spec fn pad_rank(p: PadMode) -> nat {
    match p {
        PadMode::Reflect => 0,
        PadMode::Toeplitz => 1,
    }
}

pub open spec fn bool_rank(b: bool) -> nat {
    if b {
        1
    } else {
        0
    }
}

/// Order of window parameters: by `n_fft`, `hop`, window name, `center`, padding.
pub open spec fn w_le(p: WParams, q: WParams) -> bool {
    if p.n_fft != q.n_fft {
        p.n_fft < q.n_fft
    } else if p.hop != q.hop {
        p.hop < q.hop
    } else if window_rank(p.window) != window_rank(q.window) {
        window_rank(p.window) < window_rank(q.window)
    } else if bool_rank(p.center) != bool_rank(q.center) {
        bool_rank(p.center) < bool_rank(q.center)
    } else {
        pad_rank(p.pad_mode) <= pad_rank(q.pad_mode)
    }
}

/// An absent value comes first.
pub open spec fn opt_u64_le(a: Option<u64>, b: Option<u64>) -> bool {
    match (a, b) {
        (None, _) => true,
        (Some(_), None) => false,
        (Some(x), Some(y)) => x <= y,
    }
}

pub open spec fn opt_seq_le(a: Option<Seq<char>>, b: Option<Seq<char>>) -> bool {
    match (a, b) {
        (None, _) => true,
        (Some(_), None) => false,
        (Some(x), Some(y)) => seq_le(x, y),
    }
}

/// The order of canonical nodes: by operator name, then by their parameters.
pub open spec fn node_le(a: CNode, b: CNode) -> bool {
    if op_rank(a) != op_rank(b) {
        op_rank(a) < op_rank(b)
    } else {
        match (a, b) {
            (CNode::W(p), CNode::W(q)) => w_le(p, q),
            (CNode::D(f1, a1), CNode::D(f2, a2)) => if f1 != f2 {
                opt_u64_le(f1, f2)
            } else {
                opt_seq_le(a1, a2)
            },
            _ => true,
        }
    }
}

pub proof fn lemma_node_le_refl(a: CNode)
    ensures
        node_le(a, a),
{
    match a {
        CNode::D(_, Some(s)) => lemma_seq_le_refl(s),
        _ => {},
    }
}

pub proof fn lemma_node_le_total(a: CNode, b: CNode)
    ensures
        node_le(a, b) || node_le(b, a),
{
    match (a, b) {
        (CNode::D(_, Some(x)), CNode::D(_, Some(y))) => lemma_seq_le_total(x, y),
        _ => {},
    }
}

pub proof fn lemma_node_le_antisym(a: CNode, b: CNode)
    requires
        node_le(a, b),
        node_le(b, a),
    ensures
        a == b,
{
    match (a, b) {
        (CNode::D(f1, Some(x)), CNode::D(f2, Some(y))) => {
            if f1 == f2 {
                lemma_seq_le_antisym(x, y);
            }
        },
        (CNode::W(p), CNode::W(q)) => {
            assert(p.window == q.window);
            assert(p.pad_mode == q.pad_mode);
        },
        _ => {},
    }
}

pub proof fn lemma_node_le_trans(a: CNode, b: CNode, c: CNode)
    requires
        node_le(a, b),
        node_le(b, c),
    ensures
        node_le(a, c),
{
    match (a, b, c) {
        (CNode::D(f1, Some(x)), CNode::D(f2, Some(y)), CNode::D(f3, Some(z))) => {
            if f1 == f2 && f2 == f3 {
                lemma_seq_le_trans(x, y, z);
            }
        },
        _ => {},
    }
}

fn op_rank_of(n: &CanonNode) -> (r: u8)
    ensures
        r as nat == op_rank(n@),
{
    match n {
        CanonNode::A => 0,
        CanonNode::Align => 1,
        CanonNode::C => 2,
        CanonNode::D(_) => 3,
        CanonNode::Phi => 4,
        CanonNode::T => 5,
        CanonNode::W(_) => 6,
    }
}

fn window_rank_of(w: WindowKind) -> (r: u8)
    ensures
        r as nat == window_rank(w),
{
    match w {
        WindowKind::Blackman => 0,
        WindowKind::Hamming => 1,
        WindowKind::Hann => 2,
    }
}

fn pad_rank_of(p: PadMode) -> (r: u8)
    ensures
        r as nat == pad_rank(p),
{
    match p {
        PadMode::Reflect => 0,
        PadMode::Toeplitz => 1,
    }
}

fn w_le_of(p: &WParams, q: &WParams) -> (r: bool)
    ensures
        r == w_le(*p, *q),
{
    if p.n_fft != q.n_fft {
        p.n_fft < q.n_fft
    } else if p.hop != q.hop {
        p.hop < q.hop
    } else if window_rank_of(p.window) != window_rank_of(q.window) {
        window_rank_of(p.window) < window_rank_of(q.window)
    } else if p.center != q.center {
        !p.center
    } else {
        pad_rank_of(p.pad_mode) <= pad_rank_of(q.pad_mode)
    }
}

/// `a` comes before or equals `b` in the order of canonical nodes.
pub fn node_le_of(a: &CanonNode, b: &CanonNode) -> (r: bool)
    ensures
        r == node_le(a@, b@),
{
    let ra = op_rank_of(a);
    let rb = op_rank_of(b);
    if ra != rb {
        return ra < rb;
    }
    match (a, b) {
        (CanonNode::W(p), CanonNode::W(q)) => w_le_of(p, q),
        (CanonNode::D(x), CanonNode::D(y)) => {
            let same_factor = match (x.factor, y.factor) {
                (None, None) => true,
                (Some(f), Some(g)) => f == g,
                _ => false,
            };
            if !same_factor {
                match (x.factor, y.factor) {
                    (None, _) => true,
                    (Some(_), None) => false,
                    (Some(f), Some(g)) => f <= g,
                }
            } else {
                match (&x.aa, &y.aa) {
                    (None, _) => true,
                    (Some(_), None) => false,
                    (Some(s), Some(t)) => {
                        let cs = crate::text::chars_of(s.as_str());
                        let ct = crate::text::chars_of(t.as_str());
                        chars_le(cs.as_slice(), ct.as_slice())
                    },
                }
            }
        },
        _ => true,
    }
}

} // verus!
