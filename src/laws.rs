//! Laws that relate the NF-ID to the structural diff.
use vstd::prelude::*;
use crate::canon::{canonicalize_spec, graph_json, node_json};
use crate::diff::{diff_items, diff_keys, diff_spec, key_index, law_diff_reflexive, lemma_key_index_bounds};
use crate::encode::{enc, hex_digit};
use crate::hash::{hex_text, nf_id_of, nf_id_spec, sha256_utf8};
use crate::json::{first_of, lookup, JVal};
use crate::normalize::normalize_spec;
use crate::keys::{key_set, lemma_strictly_sorted_unique, strictly_sorted, union_keys};
use crate::normalize::CNode;
use crate::order::{lemma_seq_le_antisym, seq_le, seq_lt};
use vstd::relations::{sorted_by, total_ordering};

verus! {

pub open spec fn keys_of(e: Seq<(Seq<char>, JVal)>) -> Seq<Seq<char>> {
    e.map_values(|p: (Seq<char>, JVal)| p.0)
}

/// Every object in the tree has its keys in strictly increasing order.
pub open spec fn sorted_keys(j: JVal) -> bool
    decreases j,
{
    match j {
        JVal::Obj(e) => strictly_sorted(keys_of(e)) && entries_sorted(e),
        JVal::Arr(xs) => items_sorted(xs),
        _ => true,
    }
}

pub open spec fn entries_sorted(e: Seq<(Seq<char>, JVal)>) -> bool
    decreases e,
{
    if e.len() == 0 {
        true
    } else {
        entries_sorted(e.drop_last()) && sorted_keys(e.last().1)
    }
}

pub open spec fn items_sorted(xs: Seq<JVal>) -> bool
    decreases xs,
{
    if xs.len() == 0 {
        true
    } else {
        items_sorted(xs.drop_last()) && sorted_keys(xs.last())
    }
}

proof fn lemma_entries_sorted(e: Seq<(Seq<char>, JVal)>, i: int)
    requires
        entries_sorted(e),
        0 <= i < e.len(),
    ensures
        sorted_keys(e[i].1),
    decreases e.len(),
{
    if i < e.len() - 1 {
        lemma_entries_sorted(e.drop_last(), i);
    }
}

proof fn lemma_items_sorted(xs: Seq<JVal>, i: int)
    requires
        items_sorted(xs),
        0 <= i < xs.len(),
    ensures
        sorted_keys(xs[i]),
    decreases xs.len(),
{
    if i < xs.len() - 1 {
        lemma_items_sorted(xs.drop_last(), i);
    }
}

pub proof fn lemma_items_sorted_all(xs: Seq<JVal>)
    requires
        forall|i: int| 0 <= i < xs.len() ==> #[trigger] sorted_keys(xs[i]),
    ensures
        items_sorted(xs),
    decreases xs.len(),
{
    if xs.len() > 0 {
        let d = xs.drop_last();
        assert forall|i: int| 0 <= i < d.len() implies #[trigger] sorted_keys(d[i]) by {
            assert(d[i] == xs[i]);
        }
        lemma_items_sorted_all(d);
        assert(sorted_keys(xs[xs.len() - 1]));
    }
}

pub proof fn lemma_entries_sorted_all(e: Seq<(Seq<char>, JVal)>)
    requires
        forall|i: int| 0 <= i < e.len() ==> #[trigger] sorted_keys(e[i].1),
    ensures
        entries_sorted(e),
    decreases e.len(),
{
    if e.len() > 0 {
        let d = e.drop_last();
        assert forall|i: int| 0 <= i < d.len() implies #[trigger] sorted_keys(d[i].1) by {
            assert(d[i] == e[i]);
        }
        lemma_entries_sorted_all(d);
        assert(sorted_keys(e[e.len() - 1].1));
    }
}

/// In entries with distinct keys, the key at position `i` is first found there.
pub proof fn lemma_key_index_unique(e: Seq<(Seq<char>, JVal)>, i: int)
    requires
        strictly_sorted(keys_of(e)),
        0 <= i < e.len(),
    ensures
        key_index(e, e[i].0) == i,
    decreases e.len(),
{
    let k = e[i].0;
    if i < e.len() - 1 {
        let d = e.drop_last();
        assert forall|a: int, b: int| 0 <= a < b < keys_of(d).len() implies seq_lt(
            #[trigger] keys_of(d)[a],
            #[trigger] keys_of(d)[b],
        ) by {
            assert(keys_of(d)[a] == keys_of(e)[a] && keys_of(d)[b] == keys_of(e)[b]);
        }
        lemma_key_index_unique(d, i);
        assert(d[i] == e[i]);
    } else {
        lemma_key_index_bounds(e.drop_last(), k);
        let p = key_index(e.drop_last(), k);
        if p >= 0 {
            assert(e.drop_last()[p].0 == k);
            assert(keys_of(e)[p] == k && keys_of(e)[i] == k);
            assert(seq_lt(keys_of(e)[p], keys_of(e)[i]));
        }
    }
}

pub proof fn lemma_key_index_found(e: Seq<(Seq<char>, JVal)>, k: Seq<char>)
    requires
        key_set(e).contains(k),
    ensures
        key_index(e, k) >= 0,
    decreases e.len(),
{
    let ks = e.map_values(|p: (Seq<char>, JVal)| p.0);
    assert(ks.contains(k));
    let i = choose|i: int| 0 <= i < ks.len() && ks[i] == k;
    if i < e.len() - 1 {
        let d = e.drop_last();
        assert(d.map_values(|p: (Seq<char>, JVal)| p.0)[i] == k);
        lemma_key_index_found(d, k);
    }
}

/// Where the diff under `ks` is empty, every key of `ks` is in both objects
/// with the same value there.
proof fn lemma_diff_keys_empty(
    ea: Seq<(Seq<char>, JVal)>,
    eb: Seq<(Seq<char>, JVal)>,
    ks: Seq<Seq<char>>,
    path: Seq<char>,
)
    requires
        entries_sorted(ea),
        entries_sorted(eb),
        diff_keys(ea, eb, ks, path).len() == 0,
        forall|t: int| 0 <= t < ks.len() ==> key_set(ea).union(key_set(eb)).contains(#[trigger] ks[t]),
    ensures
        forall|t: int|
            0 <= t < ks.len() ==> 0 <= #[trigger] key_index(ea, ks[t]) < ea.len() && 0 <= key_index(
                eb,
                ks[t],
            ) < eb.len() && ea[key_index(ea, ks[t])].1 == eb[key_index(eb, ks[t])].1,
    decreases ea, ks.len(),
{
    if ks.len() > 0 {
        let k = ks.last();
        let p = crate::diff::child(path, k);
        let ia = key_index(ea, k);
        let ib = key_index(eb, k);
        lemma_key_index_bounds(ea, k);
        lemma_key_index_bounds(eb, k);
        let head = diff_keys(ea, eb, ks.drop_last(), path);
        let tail = if 0 <= ia < ea.len() && 0 <= ib < eb.len() {
            diff_spec(ea[ia].1, eb[ib].1, p)
        } else if 0 <= ia < ea.len() {
            seq![(p, enc(ea[ia].1), crate::diff::absent())]
        } else if 0 <= ib < eb.len() {
            seq![(p, crate::diff::absent(), enc(eb[ib].1))]
        } else {
            Seq::empty()
        };
        assert(diff_keys(ea, eb, ks, path) == head + tail);
        assert forall|t: int| 0 <= t < ks.drop_last().len() implies key_set(ea).union(key_set(eb)).contains(
            #[trigger] ks.drop_last()[t],
        ) by {
            assert(ks.drop_last()[t] == ks[t]);
        }
        lemma_diff_keys_empty(ea, eb, ks.drop_last(), path);
        assert(key_set(ea).union(key_set(eb)).contains(ks[ks.len() - 1]));
        if key_set(ea).contains(k) {
            lemma_key_index_found(ea, k);
        } else {
            lemma_key_index_found(eb, k);
        }
        if 0 <= ia < ea.len() && 0 <= ib < eb.len() {
            lemma_entries_sorted(ea, ia);
            lemma_entries_sorted(eb, ib);
            lemma_diff_empty_equal(ea[ia].1, eb[ib].1, p);
        }
        assert forall|t: int| 0 <= t < ks.len() implies 0 <= #[trigger] key_index(ea, ks[t]) < ea.len()
            && 0 <= key_index(eb, ks[t]) < eb.len() && ea[key_index(ea, ks[t])].1 == eb[key_index(
            eb,
            ks[t],
        )].1 by {
            if t < ks.len() - 1 {
                assert(ks.drop_last()[t] == ks[t]);
            }
        }
    }
}

proof fn lemma_diff_items_empty(xa: Seq<JVal>, xb: Seq<JVal>, n: nat, path: Seq<char>)
    requires
        items_sorted(xa),
        items_sorted(xb),
        diff_items(xa, xb, n, path).len() == 0,
    ensures
        (if xa.len() < n {
            xa.len() as int
        } else {
            n as int
        }) == (if xb.len() < n {
            xb.len() as int
        } else {
            n as int
        }),
        forall|i: int| 0 <= i < n && i < xa.len() && i < xb.len() ==> #[trigger] xa[i] == #[trigger] xb[i],
    decreases xa, n,
{
    if n > 0 {
        let i = n - 1;
        let p = crate::diff::child(path, crate::canon::dec_text(i as nat));
        lemma_diff_items_empty(xa, xb, (n - 1) as nat, path);
        if i < xa.len() && i < xb.len() {
            lemma_items_sorted(xa, i);
            lemma_items_sorted(xb, i);
            assert(diff_spec(xa[i], xb[i], p).len() == 0);
            lemma_diff_empty_equal(xa[i], xb[i], p);
        }
    }
}

/// Two trees whose objects all have increasing keys, and between which the
/// diff finds nothing, are the same tree.
pub proof fn lemma_diff_empty_equal(a: JVal, b: JVal, path: Seq<char>)
    requires
        sorted_keys(a),
        sorted_keys(b),
        diff_spec(a, b, path).len() == 0,
    ensures
        a == b,
    decreases a, 0nat,
{
    match (a, b) {
        (JVal::Obj(ea), JVal::Obj(eb)) => {
            let u = union_keys(ea, eb);
            lemma_union_exists(ea, eb);
            assert(strictly_sorted(u) && u.to_set() == key_set(ea).union(key_set(eb)));
            assert forall|t: int| 0 <= t < u.len() implies key_set(ea).union(key_set(eb)).contains(#[trigger] u[t]) by {
                assert(u.to_set().contains(u[t]));
            }
            lemma_diff_keys_empty(ea, eb, u, path);
            assert forall|k: Seq<char>| key_set(ea).contains(k) <==> key_set(eb).contains(k) by {
                if key_set(ea).contains(k) || key_set(eb).contains(k) {
                    assert(u.to_set().contains(k));
                    let t = choose|t: int| 0 <= t < u.len() && u[t] == k;
                    assert(0 <= key_index(ea, u[t]) < ea.len());
                    assert(0 <= key_index(eb, u[t]) < eb.len());
                    lemma_key_index_bounds(ea, k);
                    lemma_key_index_bounds(eb, k);
                    assert(keys_of(ea)[key_index(ea, k)] == k);
                    assert(keys_of(eb)[key_index(eb, k)] == k);
                }
            }
            assert(keys_of(ea).to_set() =~= keys_of(eb).to_set());
            lemma_strictly_sorted_unique(keys_of(ea), keys_of(eb));
            assert(ea.len() == keys_of(ea).len() && eb.len() == keys_of(eb).len());
            assert forall|i: int| 0 <= i < ea.len() implies #[trigger] ea[i] == eb[i] by {
                let k = ea[i].0;
                assert(keys_of(ea)[i] == k);
                assert(keys_of(eb)[i] == k);
                assert(eb[i].0 == k);
                lemma_key_index_unique(ea, i);
                lemma_key_index_unique(eb, i);
                assert(key_set(ea).contains(k));
                assert(u.to_set().contains(k));
                let t = choose|t: int| 0 <= t < u.len() && u[t] == k;
                assert(0 <= key_index(ea, u[t]) < ea.len());
            }
            assert(ea =~= eb);
        },
        (JVal::Arr(xa), JVal::Arr(xb)) => {
            let n: nat = if xa.len() >= xb.len() {
                xa.len()
            } else {
                xb.len()
            };
            lemma_diff_items_empty(xa, xb, n, path);
            assert(xa =~= xb);
        },
        _ => {
            if a != b {
                assert(diff_spec(a, b, path).len() == 1);
            }
        },
    }
}

/// A sorted sequence with each run of equal elements kept once.
pub open spec fn dedup(s: Seq<Seq<char>>) -> Seq<Seq<char>>
    decreases s.len(),
{
    if s.len() <= 1 {
        s
    } else if s[0] == s[1] {
        dedup(s.drop_first())
    } else {
        seq![s[0]] + dedup(s.drop_first())
    }
}

pub open spec fn le_rel() -> spec_fn(Seq<char>, Seq<char>) -> bool {
    |a: Seq<char>, b: Seq<char>| seq_le(a, b)
}

proof fn lemma_dedup(s: Seq<Seq<char>>)
    requires
        sorted_by(s, le_rel()),
    ensures
        strictly_sorted(dedup(s)),
        dedup(s).to_set() == s.to_set(),
        s.len() > 0 ==> dedup(s).len() > 0 && dedup(s)[0] == s[0],
    decreases s.len(),
{
    broadcast use vstd::seq_lib::group_seq_properties;

    if s.len() <= 1 {
        if s.len() == 1 {
            assert forall|i: int, j: int| 0 <= i < j < s.len() implies seq_lt(#[trigger] s[i], #[trigger] s[j]) by {}
        }
    } else {
        let t = s.drop_first();
        assert forall|i: int, j: int| 0 <= i < j < t.len() implies #[trigger] le_rel()(t[i], t[j]) by {
            assert(le_rel()(s[i + 1], s[j + 1]));
        }
        lemma_dedup(t);
        let dt = dedup(t);
        assert(s.to_set() =~= t.to_set().insert(s[0])) by {
            assert forall|x: Seq<char>| s.contains(x) <==> (t.contains(x) || x == s[0]) by {
                if s.contains(x) && x != s[0] {
                    let i = choose|i: int| 0 <= i < s.len() && s[i] == x;
                    assert(t[i - 1] == x);
                }
                if t.contains(x) {
                    let i = choose|i: int| 0 <= i < t.len() && t[i] == x;
                    assert(s[i + 1] == x);
                }
            }
        }
        if s[0] == s[1] {
            assert(t.contains(s[0]));
            assert(t.to_set().insert(s[0]) =~= t.to_set());
        } else {
            assert(le_rel()(s[0], s[1]));
            assert(seq_lt(s[0], s[1]));
            let r = seq![s[0]] + dt;
            assert forall|j: int| 0 <= j < dt.len() implies seq_lt(s[0], #[trigger] dt[j]) by {
                if j > 0 {
                    assert(seq_lt(dt[0], dt[j]));
                    crate::keys::lemma_seq_lt_trans(s[0], dt[0], dt[j]);
                }
            }
            assert forall|i: int, j: int| 0 <= i < j < r.len() implies seq_lt(#[trigger] r[i], #[trigger] r[j]) by {
                if i == 0 {
                    assert(r[j] == dt[j - 1]);
                } else {
                    assert(r[i] == dt[i - 1] && r[j] == dt[j - 1]);
                }
            }
            assert(r.to_set() =~= dt.to_set().insert(s[0])) by {
                assert forall|x: Seq<char>| r.contains(x) <==> (dt.contains(x) || x == s[0]) by {
                    if r.contains(x) && x != s[0] {
                        let i = choose|i: int| 0 <= i < r.len() && r[i] == x;
                        assert(dt[i - 1] == x);
                    }
                    if dt.contains(x) {
                        let i = choose|i: int| 0 <= i < dt.len() && dt[i] == x;
                        assert(r[i + 1] == x);
                    }
                    if x == s[0] {
                        assert(r[0] == x);
                    }
                }
            }
        }
    }
}

pub proof fn lemma_union_exists(ea: Seq<(Seq<char>, JVal)>, eb: Seq<(Seq<char>, JVal)>)
    ensures
        strictly_sorted(union_keys(ea, eb)),
        union_keys(ea, eb).to_set() == key_set(ea).union(key_set(eb)),
{
    broadcast use vstd::seq_lib::group_to_multiset_ensures;

    let all = keys_of(ea) + keys_of(eb);
    let le = le_rel();
    assert(total_ordering(le)) by {
        assert forall|x: Seq<char>| #[trigger] le(x, x) by {
            crate::order::lemma_seq_le_refl(x);
        }
        assert forall|x: Seq<char>, y: Seq<char>| #[trigger] le(x, y) && #[trigger] le(y, x) implies x == y by {
            lemma_seq_le_antisym(x, y);
        }
        assert forall|x: Seq<char>, y: Seq<char>, z: Seq<char>| #[trigger] le(x, y) && #[trigger] le(y, z) implies le(x, z) by {
            crate::order::lemma_seq_le_trans(x, y, z);
        }
        assert forall|x: Seq<char>, y: Seq<char>| #[trigger] le(x, y) || #[trigger] le(y, x) by {
            crate::order::lemma_seq_le_total(x, y);
        }
    }
    all.lemma_sort_by_ensures(le);
    let sorted = all.sort_by(le);
    lemma_dedup(sorted);
    let w = dedup(sorted);
    assert forall|x: Seq<char>| w.to_set().contains(x) <==> key_set(ea).union(key_set(eb)).contains(x) by {
        assert(sorted.contains(x) <==> sorted.to_multiset().count(x) > 0);
        assert(all.contains(x) <==> all.to_multiset().count(x) > 0);
        if all.contains(x) {
            let i = choose|i: int| 0 <= i < all.len() && all[i] == x;
            if i < keys_of(ea).len() {
                assert(keys_of(ea)[i] == x);
            } else {
                assert(keys_of(eb)[i - keys_of(ea).len()] == x);
            }
        }
        if keys_of(ea).contains(x) {
            let i = choose|i: int| 0 <= i < keys_of(ea).len() && keys_of(ea)[i] == x;
            assert(all[i] == x);
        }
        if keys_of(eb).contains(x) {
            let i = choose|i: int| 0 <= i < keys_of(eb).len() && keys_of(eb)[i] == x;
            assert(all[i + keys_of(ea).len()] == x);
        }
    }
    assert(w.to_set() =~= key_set(ea).union(key_set(eb)));
}

proof fn lemma_first_char_lt(a: Seq<char>, b: Seq<char>)
    requires
        a.len() > 0,
        b.len() > 0,
        a[0] < b[0],
    ensures
        seq_lt(a, b),
{
}

proof fn lemma_scalar_entries_sorted(e: Seq<(Seq<char>, JVal)>)
    requires
        forall|i: int| 0 <= i < e.len() ==> !(#[trigger] e[i].1 is Obj) && !(e[i].1 is Arr),
    ensures
        entries_sorted(e),
{
    assert forall|i: int| 0 <= i < e.len() implies #[trigger] sorted_keys(e[i].1) by {
        assert(!(e[i].1 is Obj) && !(e[i].1 is Arr));
    }
    lemma_entries_sorted_all(e);
}

proof fn lemma_node_json_sorted(n: CNode)
    ensures
        sorted_keys(node_json(n)),
{
    reveal_strlit("center");
    reveal_strlit("hop");
    reveal_strlit("n_fft");
    reveal_strlit("op");
    reveal_strlit("pad_mode");
    reveal_strlit("window");
    reveal_strlit("aa");
    reveal_strlit("factor");
    match node_json(n) {
        JVal::Obj(e) => {
            lemma_scalar_entries_sorted(e);
            let ks = keys_of(e);
            assert forall|i: int, j: int| 0 <= i < j < ks.len() implies seq_lt(#[trigger] ks[i], #[trigger] ks[j]) by {
                assert(ks[i] == e[i].0 && ks[j] == e[j].0);
                lemma_first_char_lt(ks[i], ks[j]);
            }
        },
        _ => {},
    }
}

/// Normal forms have their keys in increasing order throughout.
pub proof fn lemma_graph_json_sorted(s: Seq<CNode>)
    ensures
        sorted_keys(graph_json(s)),
{
    let items = s.map_values(|n: CNode| node_json(n));
    assert forall|i: int| 0 <= i < items.len() implies #[trigger] sorted_keys(items[i]) by {
        lemma_node_json_sorted(s[i]);
    }
    lemma_items_sorted_all(items);
    let inner = seq![("nodes"@, JVal::Arr(items))];
    assert(sorted_keys(inner[0].1));
    lemma_entries_sorted_all(inner);
    assert(sorted_keys(JVal::Obj(inner)));
    let outer = seq![("graph"@, JVal::Obj(inner))];
    lemma_entries_sorted_all(outer);
}

proof fn lemma_hex_digit_injective(x: nat, y: nat)
    requires
        x < 16,
        y < 16,
        hex_digit(x) == hex_digit(y),
    ensures
        x == y,
{
    let cx = hex_digit(x) as u32;
    let cy = hex_digit(y) as u32;
    assert(cx == cy);
}

/// Between trees whose objects all have increasing keys (normal forms among
/// them), the diff is empty exactly when the trees are equal.
pub proof fn law_diff_empty_iff_equal(a: JVal, b: JVal, path: Seq<char>)
    requires
        sorted_keys(a),
        sorted_keys(b),
    ensures
        diff_spec(a, b, path).len() == 0 <==> a == b,
{
    if diff_spec(a, b, path).len() == 0 {
        lemma_diff_empty_equal(a, b, path);
    }
    if a == b {
        law_diff_reflexive(a, path);
    }
}

/// Different bytes give different hexadecimal texts.
pub proof fn lemma_hex_text_injective(x: Seq<u8>, y: Seq<u8>)
    requires
        hex_text(x) == hex_text(y),
    ensures
        x == y,
    decreases x.len(),
{
    crate::hash::lemma_hex_text_len(x);
    crate::hash::lemma_hex_text_len(y);
    if x.len() > 0 {
        let hx = hex_text(x);
        let px = hex_text(x.drop_last());
        let py = hex_text(y.drop_last());
        crate::hash::lemma_hex_text_len(x.drop_last());
        crate::hash::lemma_hex_text_len(y.drop_last());
        let n = px.len() as int;
        assert(hx.subrange(0, n) =~= px);
        assert(hex_text(y).subrange(0, n) =~= py);
        lemma_hex_text_injective(x.drop_last(), y.drop_last());
        assert(hx[n] == hex_digit((x.last() / 16) as nat));
        assert(hex_text(y)[n] == hex_digit((y.last() / 16) as nat));
        assert(hx[n + 1] == hex_digit((x.last() % 16) as nat));
        assert(hex_text(y)[n + 1] == hex_digit((y.last() % 16) as nat));
        lemma_hex_digit_injective((x.last() / 16) as nat, (y.last() / 16) as nat);
        lemma_hex_digit_injective((x.last() % 16) as nat, (y.last() % 16) as nat);
        assert(x.last() == y.last());
        assert(x =~= x.drop_last().push(x.last()));
        assert(y =~= y.drop_last().push(y.last()));
    }
}

/// Two graph documents have the same NF-ID exactly when the diff between their
/// normal forms is empty, given that the SHA-256 digests of the two normal
/// forms' texts agree only where the forms do (the collision resistance that
/// NF-IDs rest on).
pub proof fn law_nf_id_agrees_with_diff(a: JVal, b: JVal)
    requires
        canonicalize_spec(a) is Ok,
        canonicalize_spec(b) is Ok,
        sha256_utf8(enc(canonicalize_spec(a)->Ok_0)) == sha256_utf8(enc(canonicalize_spec(b)->Ok_0))
            ==> canonicalize_spec(a)->Ok_0 == canonicalize_spec(b)->Ok_0,
    ensures
        (nf_id_spec(a) == nf_id_spec(b)) <==> diff_spec(
            canonicalize_spec(a)->Ok_0,
            canonicalize_spec(b)->Ok_0,
            Seq::empty(),
        ).len() == 0,
{
    let na = canonicalize_spec(a)->Ok_0;
    let nb = canonicalize_spec(b)->Ok_0;
    if nf_id_spec(a) == nf_id_spec(b) {
        assert(nf_id_of(na) == nf_id_of(nb));
        lemma_hex_text_injective(sha256_utf8(enc(na)), sha256_utf8(enc(nb)));
        law_diff_reflexive(na, Seq::empty());
    }
    if diff_spec(na, nb, Seq::empty()).len() == 0 {
        match (crate::canon::graph_nodes(a), crate::canon::graph_nodes(b)) {
            (Ok(xa), Ok(xb)) => {
                match (crate::canon::normalize_all(xa), crate::canon::normalize_all(xb)) {
                    (Ok(ca), Ok(cb)) => {
                        lemma_graph_json_sorted(crate::canon::sort_nodes_spec(ca));
                        lemma_graph_json_sorted(crate::canon::sort_nodes_spec(cb));
                    },
                    _ => {},
                }
            },
            _ => {},
        }
        lemma_diff_empty_equal(na, nb, Seq::empty());
    }
}

/// The entries of a diff with left and right exchanged.
pub open spec fn swap_sides(d: Seq<(Seq<char>, Seq<char>, Seq<char>)>) -> Seq<(Seq<char>, Seq<char>, Seq<char>)> {
    d.map_values(|x: (Seq<char>, Seq<char>, Seq<char>)| (x.0, x.2, x.1))
}

proof fn lemma_swap_add(
    x: Seq<(Seq<char>, Seq<char>, Seq<char>)>,
    y: Seq<(Seq<char>, Seq<char>, Seq<char>)>,
)
    ensures
        swap_sides(x + y) == swap_sides(x) + swap_sides(y),
{
    assert(swap_sides(x + y) =~= swap_sides(x) + swap_sides(y));
}

/// Diffing the other way round finds the same paths, in the same order, with
/// the sides exchanged.
pub proof fn law_diff_symmetric(a: JVal, b: JVal, path: Seq<char>)
    ensures
        diff_spec(b, a, path) == swap_sides(diff_spec(a, b, path)),
    decreases a, 0nat,
{
    match (a, b) {
        (JVal::Obj(ea), JVal::Obj(eb)) => {
            lemma_union_exists(ea, eb);
            lemma_union_exists(eb, ea);
            assert(key_set(ea).union(key_set(eb)) =~= key_set(eb).union(key_set(ea)));
            lemma_strictly_sorted_unique(union_keys(ea, eb), union_keys(eb, ea));
            lemma_diff_keys_symmetric(ea, eb, union_keys(ea, eb), path);
        },
        (JVal::Arr(xa), JVal::Arr(xb)) => {
            let n: nat = if xa.len() >= xb.len() {
                xa.len()
            } else {
                xb.len()
            };
            lemma_diff_items_symmetric(xa, xb, n, path);
        },
        _ => {
            assert(swap_sides(Seq::<(Seq<char>, Seq<char>, Seq<char>)>::empty()) =~= Seq::<(Seq<char>, Seq<char>, Seq<char>)>::empty());
            assert(swap_sides(seq![(path, enc(a), enc(b))]) =~= seq![(path, enc(b), enc(a))]);
        },
    }
}

proof fn lemma_diff_keys_symmetric(
    ea: Seq<(Seq<char>, JVal)>,
    eb: Seq<(Seq<char>, JVal)>,
    ks: Seq<Seq<char>>,
    path: Seq<char>,
)
    ensures
        diff_keys(eb, ea, ks, path) == swap_sides(diff_keys(ea, eb, ks, path)),
    decreases ea, ks.len(),
{
    if ks.len() == 0 {
        assert(swap_sides(Seq::<(Seq<char>, Seq<char>, Seq<char>)>::empty()) =~= Seq::<(Seq<char>, Seq<char>, Seq<char>)>::empty());
    } else {
        let k = ks.last();
        let p = crate::diff::child(path, k);
        let ia = key_index(ea, k);
        let ib = key_index(eb, k);
        lemma_diff_keys_symmetric(ea, eb, ks.drop_last(), path);
        let tail = if 0 <= ia < ea.len() && 0 <= ib < eb.len() {
            diff_spec(ea[ia].1, eb[ib].1, p)
        } else if 0 <= ia < ea.len() {
            seq![(p, enc(ea[ia].1), crate::diff::absent())]
        } else if 0 <= ib < eb.len() {
            seq![(p, crate::diff::absent(), enc(eb[ib].1))]
        } else {
            Seq::empty()
        };
        if 0 <= ia < ea.len() && 0 <= ib < eb.len() {
            law_diff_symmetric(ea[ia].1, eb[ib].1, p);
        } else if 0 <= ia < ea.len() {
            assert(swap_sides(tail) =~= seq![(p, crate::diff::absent(), enc(ea[ia].1))]);
        } else if 0 <= ib < eb.len() {
            assert(swap_sides(tail) =~= seq![(p, enc(eb[ib].1), crate::diff::absent())]);
        } else {
            assert(swap_sides(tail) =~= tail);
        }
        lemma_swap_add(diff_keys(ea, eb, ks.drop_last(), path), tail);
    }
}

proof fn lemma_diff_items_symmetric(xa: Seq<JVal>, xb: Seq<JVal>, n: nat, path: Seq<char>)
    ensures
        diff_items(xb, xa, n, path) == swap_sides(diff_items(xa, xb, n, path)),
    decreases xa, n,
{
    if n == 0 {
        assert(swap_sides(Seq::<(Seq<char>, Seq<char>, Seq<char>)>::empty()) =~= Seq::<(Seq<char>, Seq<char>, Seq<char>)>::empty());
    } else {
        let i = n - 1;
        let p = crate::diff::child(path, crate::canon::dec_text(i as nat));
        lemma_diff_items_symmetric(xa, xb, (n - 1) as nat, path);
        let tail = if i < xa.len() && i < xb.len() {
            diff_spec(xa[i], xb[i], p)
        } else if i < xa.len() {
            seq![(p, enc(xa[i]), crate::diff::absent())]
        } else if i < xb.len() {
            seq![(p, crate::diff::absent(), enc(xb[i]))]
        } else {
            Seq::empty()
        };
        if i < xa.len() && i < xb.len() {
            law_diff_symmetric(xa[i], xb[i], p);
        } else if i < xa.len() {
            assert(swap_sides(tail) =~= seq![(p, crate::diff::absent(), enc(xa[i]))]);
        } else if i < xb.len() {
            assert(swap_sides(tail) =~= seq![(p, enc(xb[i]), crate::diff::absent())]);
        } else {
            assert(swap_sides(tail) =~= tail);
        }
        lemma_swap_add(diff_items(xa, xb, (n - 1) as nat, path), tail);
    }
}

proof fn lemma_lookup_found(e: Seq<(Seq<char>, JVal)>, k: Seq<char>)
    ensures
        lookup(e, k) matches Some(v) ==> e.contains((k, v)),
        lookup(e, k) is None ==> forall|i: int| 0 <= i < e.len() ==> (#[trigger] e[i]).0 != k,
    decreases e.len(),
{
    if e.len() > 0 {
        lemma_lookup_found(e.drop_first(), k);
        if e[0].0 != k {
            match lookup(e, k) {
                Some(v) => {
                    let j = choose|j: int| 0 <= j < e.drop_first().len() && e.drop_first()[j] == (k, v);
                    assert(e[j + 1] == (k, v));
                },
                None => {
                    assert forall|i: int| 0 <= i < e.len() implies (#[trigger] e[i]).0 != k by {
                        if i > 0 {
                            assert(e[i] == e.drop_first()[i - 1]);
                        }
                    }
                },
            }
        } else {
            assert(e[0] == (k, e[0].1));
        }
    }
}

proof fn lemma_lookup_of_entry(e: Seq<(Seq<char>, JVal)>, k: Seq<char>, v: JVal)
    requires
        keys_of(e).no_duplicates(),
        e.contains((k, v)),
    ensures
        lookup(e, k) == Some(v),
    decreases e.len(),
{
    let j = choose|j: int| 0 <= j < e.len() && e[j] == (k, v);
    if e[0].0 == k {
        if j != 0 {
            assert(keys_of(e)[0] == keys_of(e)[j]);
        }
    } else {
        let d = e.drop_first();
        assert(d[j - 1] == (k, v));
        assert forall|a: int, b: int| 0 <= a < keys_of(d).len() && 0 <= b < keys_of(d).len() && a != b implies keys_of(d)[a] != keys_of(d)[b] by {
            assert(keys_of(d)[a] == keys_of(e)[a + 1] && keys_of(d)[b] == keys_of(e)[b + 1]);
        }
        lemma_lookup_of_entry(d, k, v);
    }
}

proof fn lemma_first_of_same(e1: Seq<(Seq<char>, JVal)>, e2: Seq<(Seq<char>, JVal)>, keys: Seq<Seq<char>>)
    requires
        forall|k: Seq<char>| #[trigger] lookup(e1, k) == lookup(e2, k),
    ensures
        first_of(e1, keys) == first_of(e2, keys),
    decreases keys.len(),
{
    if keys.len() > 0 {
        assert(lookup(e1, keys[0]) == lookup(e2, keys[0]));
        lemma_first_of_same(e1, e2, keys.drop_first());
    }
}

/// Normalization does not depend on the order of a node's entries: a node
/// whose entries are those of another, in any order, each key once in both,
/// normalizes alike.
pub proof fn law_normalize_entry_order(e1: Seq<(Seq<char>, JVal)>, e2: Seq<(Seq<char>, JVal)>)
    requires
        keys_of(e1).no_duplicates(),
        keys_of(e2).no_duplicates(),
        e1.to_multiset() == e2.to_multiset(),
    ensures
        normalize_spec(JVal::Obj(e1)) == normalize_spec(JVal::Obj(e2)),
{
    broadcast use vstd::seq_lib::group_to_multiset_ensures;

    assert forall|k: Seq<char>| #[trigger] lookup(e1, k) == lookup(e2, k) by {
        lemma_lookup_found(e1, k);
        lemma_lookup_found(e2, k);
        match (lookup(e1, k), lookup(e2, k)) {
            (Some(v), _) => {
                assert(e1.to_multiset().count((k, v)) > 0);
                lemma_lookup_of_entry(e2, k, v);
            },
            (None, Some(v)) => {
                assert(e2.to_multiset().count((k, v)) > 0);
                lemma_lookup_of_entry(e1, k, v);
            },
            (None, None) => {},
        }
    }
    assert forall|keys: Seq<Seq<char>>| #[trigger] first_of(e1, keys) == first_of(e2, keys) by {
        lemma_first_of_same(e1, e2, keys);
    }
}

} // verus!
