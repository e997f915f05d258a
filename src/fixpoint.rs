//! The normal form of a normal form is itself.
use vstd::prelude::*;
use crate::alias::{OpKind, PadMode, WindowKind};
use crate::canon::{canonicalize_spec, dec_text, digit_char, graph_json, graph_nodes, node_json, normalize_all, sort_nodes_spec, nodes_sorted};
use crate::json::{first_of, lookup, JVal};
use crate::normalize::{normalize_spec, w_params_wf, CNode, WParams};
use crate::decimal::{dv, num_scan, parse_decimal, Scan};
use crate::num::{digit_val, is_digit, pow10};

verus! {

pub open spec fn dec_digits(n: nat) -> Seq<nat>
    decreases n,
{
    if n < 10 {
        seq![n]
    } else {
        dec_digits(n / 10).push(n % 10)
    }
}

proof fn lemma_dec_text_scans(n: nat)
    ensures
        num_scan(dec_text(n)) == Some(
            Scan { phase: 2, neg: false, digs: dec_digits(n), scale: 0, eneg: false, ev: 0 },
        ),
        dv(dec_digits(n)) == n,
        dec_digits(n).len() >= 1,
        dec_text(n).len() >= 1,
        is_digit(dec_text(n).last()),
    decreases n,
{
    let d = (n % 10) as nat;
    assert(is_digit(digit_char(d)) && digit_val(digit_char(d)) == d);
    assert((n / 10) * 10 + d == n);
    if n >= 10 {
        lemma_dec_text_scans(n / 10);
        assert(dec_text(n).drop_last() == dec_text(n / 10));
        assert(dec_text(n).last() == digit_char(d));
        assert(dec_digits(n).drop_last() =~= dec_digits(n / 10));
        assert(dec_digits(n / 10).push(d) == dec_digits(n));
        let st0 = Scan { phase: 2, neg: false, digs: dec_digits(n / 10), scale: 0, eneg: false, ev: 0 };
        assert(crate::decimal::scan_step(st0, digit_char(d)) == Some(
            Scan { phase: 2, neg: false, digs: dec_digits(n), scale: 0, eneg: false, ev: 0 },
        ));
        assert(num_scan(dec_text(n).drop_last()) == Some(st0));
        assert(num_scan(dec_text(n)) == crate::decimal::scan_step(st0, dec_text(n).last()));
    } else {
        let st0 = Scan { phase: 0, neg: false, digs: Seq::empty(), scale: 0, eneg: false, ev: 0 };
        assert(crate::decimal::scan_step(st0, digit_char(d)) == Some(
            Scan { phase: 2, neg: false, digs: dec_digits(n), scale: 0, eneg: false, ev: 0 },
        ));
        assert(dec_text(n) == seq![digit_char(n)]);
        assert(num_scan(Seq::<char>::empty()) == Some(st0));
        assert(num_scan(dec_text(n).drop_last()) == Some(st0));
        assert(dec_text(n).drop_last() =~= Seq::<char>::empty());
        assert(seq![n].drop_last() =~= Seq::<nat>::empty());
        assert(dv(Seq::<nat>::empty()) == 0);
        assert(Seq::<nat>::empty().push(n) =~= seq![n]);
        assert(dec_text(n).last() == digit_char(n));
    }
    assert(num_scan(dec_text(n)) == Some(
        Scan { phase: 2, neg: false, digs: dec_digits(n), scale: 0, eneg: false, ev: 0 },
    ));
}

/// Decimal digits read back as the whole number they spell.
pub proof fn lemma_dec_text_parses(n: nat)
    requires
        n <= u64::MAX,
    ensures
        crate::normalize::json_uint(JVal::Num(dec_text(n))) == Some(n),
{
    lemma_dec_text_scans(n);
    assert(parse_decimal(dec_text(n)) == Some((false, n, 0int)));
    assert(pow10(0) == 1);
    assert(n * 1 == n);
    vstd::arithmetic::div_mod::lemma_fundamental_div_mod_converse(n as int, 1, n as int, 0);
}

/// The invariant of canonical nodes.
pub open spec fn cnode_wf(n: CNode) -> bool {
    match n {
        CNode::W(p) => w_params_wf(p),
        CNode::D(f, _) => f matches Some(x) ==> x >= 1,
        _ => true,
    }
}

proof fn lemma_lookup_at(e: Seq<(Seq<char>, JVal)>, k: Seq<char>, i: int)
    requires
        0 <= i < e.len(),
        e[i].0 == k,
        forall|j: int| 0 <= j < i ==> (#[trigger] e[j]).0 != k,
    ensures
        lookup(e, k) == Some(e[i].1),
    decreases i,
{
    if i > 0 {
        let d = e.drop_first();
        assert forall|j: int| 0 <= j < i - 1 implies (#[trigger] d[j]).0 != k by {
            assert(d[j] == e[j + 1]);
        }
        lemma_lookup_at(d, k, i - 1);
    }
}

proof fn lemma_w_node_fixed(p: WParams)
    requires
        w_params_wf(p),
    ensures
        normalize_spec(node_json(CNode::W(p))) == Ok::<CNode, crate::normalize::NErr>(CNode::W(p)),
{
    reveal_strlit("op");
    reveal_strlit("type");
    reveal_strlit("kind");
    reveal_strlit("center");
    reveal_strlit("centered");
    reveal_strlit("hop");
    reveal_strlit("hop_length");
    reveal_strlit("hop_size");
    reveal_strlit("stride");
    reveal_strlit("n_fft");
    reveal_strlit("pad_mode");
    reveal_strlit("window");
    reveal_strlit("aa");
    reveal_strlit("anti_alias");
    reveal_strlit("antialias");
    reveal_strlit("factor");
    reveal_strlit("lambda");
    reveal_strlit("λ");
    reveal_strlit("decim");
    reveal_strlit("q");
    reveal_strlit("W");
    reveal_strlit("T");
    reveal_strlit("D");
    reveal_strlit("A");
    reveal_strlit("C");
    reveal_strlit("Align");
    reveal_strlit("Phi");
    reveal_strlit("w");
    reveal_strlit("stft");
    reveal_strlit("t");
    reveal_strlit("istft");
    reveal_strlit("inverse");
    reveal_strlit("d");
    reveal_strlit("down");
    reveal_strlit("downsample");
    reveal_strlit("decimate");
    reveal_strlit("a");
    reveal_strlit("amp");
    reveal_strlit("amplitude");
    reveal_strlit("c");
    reveal_strlit("coh");
    reveal_strlit("coherence");
    reveal_strlit("align");
    reveal_strlit("alignment");
    reveal_strlit("phi");
    reveal_strlit("Hann");
    reveal_strlit("Hamming");
    reveal_strlit("Blackman");
    reveal_strlit("hann");
    reveal_strlit("hanning");
    reveal_strlit("hamming");
    reveal_strlit("blackman");
    reveal_strlit("reflect");
    reveal_strlit("toeplitz");
    let e = match node_json(CNode::W(p)) {
        JVal::Obj(e) => e,
        _ => Seq::empty(),
    };
    assert(e.len() == 6);
    assert(e[0].0 == "center"@ && e[1].0 == "hop"@ && e[2].0 == "n_fft"@ && e[3].0 == "op"@
        && e[4].0 == "pad_mode"@ && e[5].0 == "window"@);
    assert forall|i: int, j: int| 0 <= i < 6 && 0 <= j < 6 && i != j implies (#[trigger] e[i]).0
        != (#[trigger] e[j]).0 by {
        assert(e[i].0[0] != e[j].0[0]);
    }
    lemma_lookup_at(e, "op"@, 3);
    lemma_lookup_at(e, "n_fft"@, 2);
    lemma_lookup_at(e, "hop"@, 1);
    lemma_lookup_at(e, "window"@, 5);
    lemma_lookup_at(e, "center"@, 0);
    lemma_lookup_at(e, "pad_mode"@, 4);
    assert(lookup(e, "op"@) == Some(JVal::Str("W"@)));
    assert(lookup(e, "n_fft"@) == Some(JVal::Num(dec_text(p.n_fft as nat))));
    assert(lookup(e, "hop"@) == Some(JVal::Num(dec_text(p.hop as nat))));
    assert(lookup(e, "window"@) == Some(JVal::Str(crate::canon::window_name(p.window))));
    assert(lookup(e, "center"@) == Some(JVal::Bool(p.center)));
    assert(lookup(e, "pad_mode"@) == Some(JVal::Str(crate::canon::pad_name(p.pad_mode))));
    lemma_dec_text_parses(p.n_fft as nat);
    lemma_dec_text_parses(p.hop as nat);
    assert(crate::text::lower_seq("W"@) =~= "w"@);
    assert(crate::text::lower_seq("Hann"@) =~= "hann"@);
    assert(crate::text::lower_seq("Hamming"@) =~= "hamming"@);
    assert(crate::text::lower_seq("Blackman"@) =~= "blackman"@);
    assert(crate::text::lower_seq("reflect"@) =~= "reflect"@);
    assert(crate::text::lower_seq("toeplitz"@) =~= "toeplitz"@);
    assert(crate::normalize::resolve_op(e) == Ok::<OpKind, crate::normalize::NErr>(OpKind::W));
    assert(crate::normalize::resolve_n_fft(e) == Ok::<nat, crate::normalize::NErr>(p.n_fft as nat));
    assert(crate::normalize::resolve_hop(e, p.n_fft as nat) == Ok::<nat, crate::normalize::NErr>(p.hop as nat));
    reveal_strlit("symmetric");
    reveal_strlit("mirror");
    reveal_strlit("conv");
    reveal_strlit("valid-conv");
    match p.window {
        WindowKind::Hann => {},
        WindowKind::Hamming => {
            assert("hamming"@[2] != "hanning"@[2]);
            assert(crate::alias::window_alias("hamming"@) == Some(WindowKind::Hamming));
        },
        WindowKind::Blackman => {
            assert(crate::alias::window_alias("blackman"@) == Some(WindowKind::Blackman));
        },
    }
    match p.pad_mode {
        PadMode::Reflect => {},
        PadMode::Toeplitz => {
            assert(crate::alias::pad_alias("toeplitz"@) == Some(PadMode::Toeplitz));
        },
    }
    assert(crate::normalize::resolve_window(e) == Ok::<WindowKind, crate::normalize::NErr>(p.window));
    assert(crate::normalize::resolve_center(e) == Ok::<bool, crate::normalize::NErr>(p.center));
    assert(crate::normalize::resolve_pad(e) == Ok::<PadMode, crate::normalize::NErr>(p.pad_mode));
    let q = WParams {
        n_fft: (p.n_fft as nat) as u64,
        hop: (p.hop as nat) as u64,
        window: p.window,
        center: p.center,
        pad_mode: p.pad_mode,
    };
    assert(q == p);
    assert(crate::normalize::collapse(p) == p);
    assert(crate::normalize::norm_w(e) == Ok::<WParams, crate::normalize::NErr>(p));
    assert(node_json(CNode::W(p)) == JVal::Obj(e));
    assert(normalize_spec(JVal::Obj(e)) == Ok::<CNode, crate::normalize::NErr>(CNode::W(p)));
}

proof fn lemma_lookup_absent(e: Seq<(Seq<char>, JVal)>, k: Seq<char>)
    requires
        forall|j: int| 0 <= j < e.len() ==> (#[trigger] e[j]).0 != k,
    ensures
        lookup(e, k) is None,
    decreases e.len(),
{
    if e.len() > 0 {
        let d = e.drop_first();
        assert forall|j: int| 0 <= j < d.len() implies (#[trigger] d[j]).0 != k by {
            assert(d[j] == e[j + 1]);
        }
        lemma_lookup_absent(d, k);
    }
}

proof fn lemma_single_node_fixed(n: CNode, name: Seq<char>, lower: Seq<char>, kind: OpKind)
    requires
        node_json(n) == JVal::Obj(seq![("op"@, JVal::Str(name))]),
        crate::text::lower_seq(name) == lower,
        crate::alias::op_alias(lower) == Some(kind),
        kind != OpKind::W && kind != OpKind::D,
        match kind {
            OpKind::T => n == CNode::T,
            OpKind::A => n == CNode::A,
            OpKind::C => n == CNode::C,
            OpKind::Align => n == CNode::Align,
            OpKind::Phi => n == CNode::Phi,
            _ => false,
        },
    ensures
        normalize_spec(node_json(n)) == Ok::<CNode, crate::normalize::NErr>(n),
{
    let e = seq![("op"@, JVal::Str(name))];
    lemma_lookup_at(e, "op"@, 0);
    assert(first_of(e, crate::alias::op_keys()) == Some(JVal::Str(name)));
}

proof fn lemma_first_of_absent(e: Seq<(Seq<char>, JVal)>, keys: Seq<Seq<char>>)
    requires
        forall|i: int| 0 <= i < keys.len() ==> lookup(e, #[trigger] keys[i]) is None,
    ensures
        first_of(e, keys) is None,
    decreases keys.len(),
{
    if keys.len() > 0 {
        assert(lookup(e, keys[0]) is None);
        assert forall|i: int| 0 <= i < keys.drop_first().len() implies lookup(e, #[trigger] keys.drop_first()[i]) is None by {
            assert(keys.drop_first()[i] == keys[i + 1]);
        }
        lemma_first_of_absent(e, keys.drop_first());
    }
}

proof fn lemma_d_node_fixed(f: Option<u64>, a: Option<Seq<char>>)
    requires
        f matches Some(x) ==> x >= 1,
    ensures
        normalize_spec(node_json(CNode::D(f, a))) == Ok::<CNode, crate::normalize::NErr>(CNode::D(f, a)),
{
    reveal_strlit("op");
    reveal_strlit("type");
    reveal_strlit("kind");
    reveal_strlit("aa");
    reveal_strlit("anti_alias");
    reveal_strlit("antialias");
    reveal_strlit("factor");
    reveal_strlit("lambda");
    reveal_strlit("λ");
    reveal_strlit("decim");
    reveal_strlit("q");
    reveal_strlit("D");
    reveal_strlit("d");
    reveal_strlit("w");
    reveal_strlit("t");
    reveal_strlit("stft");
    reveal_strlit("window");
    reveal_strlit("istft");
    reveal_strlit("inverse");
    let ap: Seq<(Seq<char>, JVal)> = match a {
        Some(s) => seq![("aa"@, JVal::Str(s))],
        None => Seq::empty(),
    };
    let fp: Seq<(Seq<char>, JVal)> = match f {
        Some(x) => seq![("factor"@, JVal::Num(dec_text(x as nat)))],
        None => Seq::empty(),
    };
    let e = ap + fp + seq![("op"@, JVal::Str("D"@))];
    assert(node_json(CNode::D(f, a)) == JVal::Obj(e));
    let n = e.len() as int;
    assert forall|j: int| 0 <= j < n implies (#[trigger] e[j]).0[0] == 'a' || e[j].0[0] == 'f' || e[j].0[0] == 'o' by {
        if j < ap.len() {
            assert(e[j] == ap[j]);
        } else if j < ap.len() + fp.len() {
            assert(e[j] == fp[j - ap.len()]);
        }
    }
    assert(e[n - 1].0 == "op"@);
    assert forall|j: int| 0 <= j < n - 1 implies (#[trigger] e[j]).0 != "op"@ by {
        if j < ap.len() {
            assert(e[j] == ap[j]);
        } else {
            assert(e[j] == fp[j - ap.len()]);
        }
    }
    lemma_lookup_at(e, "op"@, n - 1);
    assert(crate::text::lower_seq("D"@) =~= "d"@);
    assert("d"@[0] != "w"@[0] && "d"@[0] != "t"@[0]);
    assert(crate::normalize::resolve_op(e) == Ok::<OpKind, crate::normalize::NErr>(OpKind::D));
    match f {
        Some(x) => {
            let i = ap.len() as int;
            assert(e[i] == ("factor"@, JVal::Num(dec_text(x as nat))));
            assert forall|j: int| 0 <= j < i implies (#[trigger] e[j]).0 != "factor"@ by {
                assert(e[j] == ap[j]);
            }
            lemma_lookup_at(e, "factor"@, i);
            lemma_dec_text_parses(x as nat);
        },
        None => {
            let ks = crate::alias::factor_keys();
            assert forall|i: int| 0 <= i < ks.len() implies lookup(e, #[trigger] ks[i]) is None by {
                assert(ks[i][0] != 'a' && ks[i][0] != 'o');
                assert forall|j: int| 0 <= j < e.len() implies (#[trigger] e[j]).0 != ks[i] by {
                    assert(e[j].0[0] == 'a' || e[j].0[0] == 'o' || e[j].0[0] == 'f');
                    if j < ap.len() {
                        assert(e[j] == ap[j]);
                    }
                }
                lemma_lookup_absent(e, ks[i]);
            }
            lemma_first_of_absent(e, ks);
        },
    }
    assert(crate::normalize::resolve_factor(e) == Ok::<Option<u64>, crate::normalize::NErr>(f));
    match a {
        Some(s) => {
            assert(e[0] == ("aa"@, JVal::Str(s)));
            lemma_lookup_at(e, "aa"@, 0);
        },
        None => {
            let ks = crate::alias::aa_keys();
            assert forall|i: int| 0 <= i < ks.len() implies lookup(e, #[trigger] ks[i]) is None by {
                assert(ks[i][0] == 'a');
                assert forall|j: int| 0 <= j < e.len() implies (#[trigger] e[j]).0 != ks[i] by {
                    assert(e[j] == if j < fp.len() { fp[j] } else { seq![("op"@, JVal::Str("D"@))][j - fp.len()] });
                }
                lemma_lookup_absent(e, ks[i]);
            }
            lemma_first_of_absent(e, ks);
        },
    }
    assert(crate::normalize::resolve_aa(e) == Ok::<Option<Seq<char>>, crate::normalize::NErr>(a));
}

/// A canonical node normalizes to itself.
pub proof fn lemma_node_fixed(n: CNode)
    requires
        cnode_wf(n),
    ensures
        normalize_spec(node_json(n)) == Ok::<CNode, crate::normalize::NErr>(n),
{
    reveal_strlit("op");
    reveal_strlit("type");
    reveal_strlit("kind");
    reveal_strlit("center");
    reveal_strlit("centered");
    reveal_strlit("hop");
    reveal_strlit("hop_length");
    reveal_strlit("hop_size");
    reveal_strlit("stride");
    reveal_strlit("n_fft");
    reveal_strlit("pad_mode");
    reveal_strlit("window");
    reveal_strlit("aa");
    reveal_strlit("anti_alias");
    reveal_strlit("antialias");
    reveal_strlit("factor");
    reveal_strlit("lambda");
    reveal_strlit("λ");
    reveal_strlit("decim");
    reveal_strlit("q");
    reveal_strlit("W");
    reveal_strlit("T");
    reveal_strlit("D");
    reveal_strlit("A");
    reveal_strlit("C");
    reveal_strlit("Align");
    reveal_strlit("Phi");
    reveal_strlit("w");
    reveal_strlit("stft");
    reveal_strlit("t");
    reveal_strlit("istft");
    reveal_strlit("inverse");
    reveal_strlit("d");
    reveal_strlit("down");
    reveal_strlit("downsample");
    reveal_strlit("decimate");
    reveal_strlit("a");
    reveal_strlit("amp");
    reveal_strlit("amplitude");
    reveal_strlit("c");
    reveal_strlit("coh");
    reveal_strlit("coherence");
    reveal_strlit("align");
    reveal_strlit("alignment");
    reveal_strlit("phi");
    reveal_strlit("Hann");
    reveal_strlit("Hamming");
    reveal_strlit("Blackman");
    reveal_strlit("hann");
    reveal_strlit("hanning");
    reveal_strlit("hamming");
    reveal_strlit("blackman");
    reveal_strlit("reflect");
    reveal_strlit("toeplitz");
    match n {
        CNode::W(p) => {
            lemma_w_node_fixed(p);
        },
        CNode::D(f, a) => {
            lemma_d_node_fixed(f, a);
            assert(crate::text::lower_seq("D"@) =~= "d"@);
            match f {
                Some(x) => lemma_dec_text_parses(x as nat),
                None => {},
            }
            assert(normalize_spec(node_json(n)) == Ok::<CNode, crate::normalize::NErr>(n));
        },
        CNode::T => {
            assert(crate::text::lower_seq("T"@) =~= "t"@);
            assert("t"@[0] != "w"@[0]);
            lemma_single_node_fixed(n, "T"@, "t"@, OpKind::T);
            assert(normalize_spec(node_json(n)) == Ok::<CNode, crate::normalize::NErr>(n));
        },
        CNode::A => {
            assert(crate::text::lower_seq("A"@) =~= "a"@);
            assert("a"@[0] != "w"@[0] && "a"@[0] != "t"@[0] && "a"@[0] != "d"@[0]);
            lemma_single_node_fixed(n, "A"@, "a"@, OpKind::A);
            assert(normalize_spec(node_json(n)) == Ok::<CNode, crate::normalize::NErr>(n));
        },
        CNode::C => {
            assert(crate::text::lower_seq("C"@) =~= "c"@);
            assert("c"@[0] != "w"@[0] && "c"@[0] != "t"@[0] && "c"@[0] != "d"@[0] && "c"@[0] != "a"@[0]);
            lemma_single_node_fixed(n, "C"@, "c"@, OpKind::C);
            assert(normalize_spec(node_json(n)) == Ok::<CNode, crate::normalize::NErr>(n));
        },
        CNode::Align => {
            assert(crate::text::lower_seq("Align"@) =~= "align"@);
            assert("align"@[0] != "istft"@[0]);
            lemma_single_node_fixed(n, "Align"@, "align"@, OpKind::Align);
            assert(normalize_spec(node_json(n)) == Ok::<CNode, crate::normalize::NErr>(n));
        },
        CNode::Phi => {
            assert(crate::text::lower_seq("Phi"@) =~= "phi"@);
            reveal_strlit("φ");
            reveal_strlit("Φ");
            reveal_strlit("phase");
            assert("phi"@[0] != "amp"@[0] && "phi"@[0] != "coh"@[0]);
            lemma_single_node_fixed(n, "Phi"@, "phi"@, OpKind::Phi);
            assert(normalize_spec(node_json(n)) == Ok::<CNode, crate::normalize::NErr>(n));
        },
    }
}

/// Normalization yields canonical nodes that keep their invariant.
pub proof fn lemma_normalize_wf(v: JVal)
    ensures
        normalize_spec(v) matches Ok(c) ==> cnode_wf(c),
{
    match v {
        JVal::Obj(e) => {
            match first_of(e, crate::alias::factor_keys()) {
                Some(v) => {
                    match crate::normalize::json_number(v) {
                        Some(x) => {
                            crate::decimal::den_pos(x.2);
                            if crate::decimal::uint_of(x) is Some {
                                assert(crate::decimal::uint_of(x)->Some_0 <= u64::MAX);
                            }
                        },
                        None => {},
                    }
                },
                None => {},
            }
            match first_of(e, crate::alias::n_fft_keys()) {
                Some(v) => {
                    match crate::normalize::json_number(v) {
                        Some(x) => {
                            crate::decimal::den_pos(x.2);
                            if crate::decimal::uint_of(x) is Some {
                                assert(crate::decimal::uint_of(x)->Some_0 <= u64::MAX);
                            }
                        },
                        None => {},
                    }
                },
                None => {},
            }
            match crate::normalize::resolve_n_fft(e) {
                Ok(n) => {
                    let d = crate::normalize::default_hop(n);
                    assert(1 <= d <= n);
                    match crate::normalize::resolve_hop(e, n) {
                        Ok(h) => {
                            if first_of(e, crate::alias::hop_keys()) is None {
                                match first_of(e, crate::alias::hop_ratio_keys()) {
                                    Some(rv) => {
                                        let x = crate::normalize::json_number(rv)->Some_0;
                                        assert(1 <= crate::decimal::ratio_hop(x, n) <= n);
                                    },
                                    None => {
                                        match first_of(e, crate::alias::overlap_keys()) {
                                            Some(ov) => {
                                                let x = crate::normalize::json_number(ov)->Some_0;
                                                assert(1 <= crate::decimal::overlap_hop(x, n) <= n);
                                            },
                                            None => {},
                                        }
                                    },
                                }
                            }
                            assert(1 <= h <= n);
                        },
                        Err(_) => {},
                    }
                },
                Err(_) => {},
            }
        },
        _ => {},
    }
}

proof fn lemma_normalize_all_wf(ns: Seq<JVal>)
    ensures
        normalize_all(ns) matches Ok(cs) ==> cs.len() == ns.len() && forall|i: int| 0 <= i < cs.len() ==> #[trigger] cnode_wf(cs[i]),
    decreases ns.len(),
{
    if ns.len() > 0 {
        lemma_normalize_all_wf(ns.drop_last());
        lemma_normalize_wf(ns.last());
        match normalize_all(ns) {
            Ok(cs) => {
                let ps = normalize_all(ns.drop_last())->Ok_0;
                assert forall|i: int| 0 <= i < cs.len() implies #[trigger] cnode_wf(cs[i]) by {
                    if i < ps.len() {
                        assert(cs[i] == ps[i]);
                    }
                }
            },
            Err(_) => {},
        }
    }
}

proof fn lemma_nodes_round_trip(s: Seq<CNode>)
    requires
        forall|i: int| 0 <= i < s.len() ==> #[trigger] cnode_wf(s[i]),
    ensures
        normalize_all(s.map_values(|n: CNode| node_json(n))) == Ok::<Seq<CNode>, crate::canon::CErr>(s),
    decreases s.len(),
{
    if s.len() > 0 {
        let d = s.drop_last();
        assert forall|i: int| 0 <= i < d.len() implies #[trigger] cnode_wf(d[i]) by {
            assert(d[i] == s[i]);
        }
        lemma_nodes_round_trip(d);
        let m = s.map_values(|n: CNode| node_json(n));
        assert(m.drop_last() =~= d.map_values(|n: CNode| node_json(n)));
        assert(cnode_wf(s[s.len() - 1]));
        lemma_node_fixed(s.last());
        assert(m.last() == node_json(s.last()));
        assert(d.push(s.last()) =~= s);
    } else {
        assert(s.map_values(|n: CNode| node_json(n)) =~= Seq::<JVal>::empty());
        assert(s =~= Seq::<CNode>::empty());
    }
}

proof fn lemma_sort_exists(cs: Seq<CNode>)
    ensures
        nodes_sorted(sort_nodes_spec(cs)),
        sort_nodes_spec(cs).to_multiset() == cs.to_multiset(),
{
    let le = |a: CNode, b: CNode| crate::order::node_le(a, b);
    assert(vstd::relations::total_ordering(le)) by {
        assert forall|x: CNode| #[trigger] le(x, x) by {
            crate::order::lemma_node_le_refl(x);
        }
        assert forall|x: CNode, y: CNode| #[trigger] le(x, y) && #[trigger] le(y, x) implies x == y by {
            crate::order::lemma_node_le_antisym(x, y);
        }
        assert forall|x: CNode, y: CNode, z: CNode| #[trigger] le(x, y) && #[trigger] le(y, z) implies le(x, z) by {
            crate::order::lemma_node_le_trans(x, y, z);
        }
        assert forall|x: CNode, y: CNode| #[trigger] le(x, y) || #[trigger] le(y, x) by {
            crate::order::lemma_node_le_total(x, y);
        }
    }
    cs.lemma_sort_by_ensures(le);
    let t = cs.sort_by(le);
    assert forall|i: int, j: int| 0 <= i < j < t.len() implies crate::order::node_le(#[trigger] t[i], #[trigger] t[j]) by {
        assert(le(t[i], t[j]));
    }
    crate::canon::lemma_sort_nodes_spec(cs, t);
}

/// The normal form of a normal form is itself: canonicalization is idempotent.
pub proof fn law_canonicalize_idempotent(g: JVal)
    requires
        canonicalize_spec(g) is Ok,
    ensures
        canonicalize_spec(canonicalize_spec(g)->Ok_0) == canonicalize_spec(g),
{
    broadcast use vstd::seq_lib::group_to_multiset_ensures;

    let ns = graph_nodes(g)->Ok_0;
    let cs = normalize_all(ns)->Ok_0;
    let sorted = sort_nodes_spec(cs);
    let nf = graph_json(sorted);
    lemma_normalize_all_wf(ns);
    lemma_sort_exists(cs);
    assert forall|i: int| 0 <= i < sorted.len() implies #[trigger] cnode_wf(sorted[i]) by {
        assert(sorted.contains(sorted[i]));
        assert(cs.to_multiset().count(sorted[i]) > 0);
        assert(cs.contains(sorted[i]));
        let j = choose|j: int| 0 <= j < cs.len() && cs[j] == sorted[i];
        assert(cnode_wf(cs[j]));
    }
    let items = sorted.map_values(|n: CNode| node_json(n));
    let inner = seq![("nodes"@, JVal::Arr(items))];
    let outer = seq![("graph"@, JVal::Obj(inner))];
    assert(nf == JVal::Obj(outer));
    lemma_lookup_at(outer, "graph"@, 0);
    lemma_lookup_at(inner, "nodes"@, 0);
    assert(graph_nodes(nf) == Ok::<Seq<JVal>, crate::canon::CErr>(items));
    lemma_nodes_round_trip(sorted);
    crate::canon::lemma_sort_nodes_spec(sorted, sorted);
}

} // verus!
