//! Structural diff of two JSON trees, addressed by slash-delimited paths.
use vstd::prelude::*;
use vstd::string::StringExecFns;
use crate::canon::{dec_string, dec_text};
use crate::encode::{enc, encode};
use crate::json::{jv, jv_arr, jv_obj, lemma_jv_arr, lemma_jv_obj, JVal, Json};
use crate::keys::{sviews, union_keys, union_keys_of};
use crate::text::str_eq_str;

verus! {

/// One difference: where it is, and the compact JSON text of each side there
/// (`<absent>` where a side has nothing).
pub struct DiffEntry {
    pub path: String,
    pub left: String,
    pub right: String,
}

pub open spec fn dview(d: DiffEntry) -> (Seq<char>, Seq<char>, Seq<char>) {
    (d.path@, d.left@, d.right@)
}

pub open spec fn dviews(s: Seq<DiffEntry>) -> Seq<(Seq<char>, Seq<char>, Seq<char>)> {
    s.map_values(|d: DiffEntry| dview(d))
}

/// The marker that stands for a side with nothing at a path.
pub open spec fn absent() -> Seq<char> {
    "<absent>"@
}

pub open spec fn child(path: Seq<char>, k: Seq<char>) -> Seq<char> {
    path + "/"@ + k
}

/// The position of the first entry with key `k`, or -1.
pub open spec fn key_index(e: Seq<(Seq<char>, JVal)>, k: Seq<char>) -> int
    decreases e.len(),
{
    if e.len() == 0 {
        -1
    } else {
        let p = key_index(e.drop_last(), k);
        if p >= 0 {
            p
        } else if e.last().0 == k {
            e.len() - 1
        } else {
            -1
        }
    }
}

/// The differences between `a` and `b`, below `path`.
pub open spec fn diff_spec(a: JVal, b: JVal, path: Seq<char>) -> Seq<(Seq<char>, Seq<char>, Seq<char>)>
    decreases a, 0nat,
{
    match (a, b) {
        (JVal::Obj(ea), JVal::Obj(eb)) => diff_keys(ea, eb, union_keys(ea, eb), path),
        (JVal::Arr(xa), JVal::Arr(xb)) => diff_items(
            xa,
            xb,
            if xa.len() >= xb.len() {
                xa.len()
            } else {
                xb.len()
            },
            path,
        ),
        _ => if a == b {
            Seq::empty()
        } else {
            seq![(path, enc(a), enc(b))]
        },
    }
}

/// The differences under the keys `ks`, in their order.
pub open spec fn diff_keys(
    ea: Seq<(Seq<char>, JVal)>,
    eb: Seq<(Seq<char>, JVal)>,
    ks: Seq<Seq<char>>,
    path: Seq<char>,
) -> Seq<(Seq<char>, Seq<char>, Seq<char>)>
    decreases ea, ks.len(),
{
    if ks.len() == 0 {
        Seq::empty()
    } else {
        let k = ks.last();
        let p = child(path, k);
        let ia = key_index(ea, k);
        let ib = key_index(eb, k);
        diff_keys(ea, eb, ks.drop_last(), path) + if 0 <= ia < ea.len() && 0 <= ib < eb.len() {
            diff_spec(ea[ia].1, eb[ib].1, p)
        } else if 0 <= ia < ea.len() {
            seq![(p, enc(ea[ia].1), absent())]
        } else if 0 <= ib < eb.len() {
            seq![(p, absent(), enc(eb[ib].1))]
        } else {
            Seq::empty()
        }
    }
}

/// The differences at the first `n` positions.
pub open spec fn diff_items(xa: Seq<JVal>, xb: Seq<JVal>, n: nat, path: Seq<char>) -> Seq<
    (Seq<char>, Seq<char>, Seq<char>),
>
    decreases xa, n,
{
    if n == 0 {
        Seq::empty()
    } else {
        let i = n - 1;
        let p = child(path, dec_text(i as nat));
        diff_items(xa, xb, (n - 1) as nat, path) + if i < xa.len() && i < xb.len() {
            diff_spec(xa[i], xb[i], p)
        } else if i < xa.len() {
            seq![(p, enc(xa[i]), absent())]
        } else if i < xb.len() {
            seq![(p, absent(), enc(xb[i]))]
        } else {
            Seq::empty()
        }
    }
}

proof fn lemma_key_index_prefix(e: Seq<(Seq<char>, JVal)>, i: int, k: Seq<char>)
    requires
        0 <= i <= e.len(),
        key_index(e.subrange(0, i), k) >= 0,
    ensures
        key_index(e, k) == key_index(e.subrange(0, i), k),
    decreases e.len(),
{
    if i == e.len() {
        assert(e.subrange(0, i) =~= e);
    } else {
        assert(e.drop_last().subrange(0, i) =~= e.subrange(0, i));
        lemma_key_index_prefix(e.drop_last(), i, k);
    }
}

pub proof fn lemma_key_index_bounds(e: Seq<(Seq<char>, JVal)>, k: Seq<char>)
    ensures
        -1 <= key_index(e, k) < e.len(),
        key_index(e, k) >= 0 ==> e[key_index(e, k)].0 == k,
    decreases e.len(),
{
    if e.len() > 0 {
        lemma_key_index_bounds(e.drop_last(), k);
    }
}

/// A tree has no differences with itself, whatever the base path.
pub proof fn law_diff_reflexive(x: JVal, path: Seq<char>)
    ensures
        diff_spec(x, x, path) == Seq::<(Seq<char>, Seq<char>, Seq<char>)>::empty(),
    decreases x, 0nat,
{
    match x {
        JVal::Obj(e) => lemma_diff_keys_reflexive(e, union_keys(e, e), path),
        JVal::Arr(xs) => lemma_diff_items_reflexive(xs, xs.len(), path),
        _ => {},
    }
}

proof fn lemma_diff_keys_reflexive(e: Seq<(Seq<char>, JVal)>, ks: Seq<Seq<char>>, path: Seq<char>)
    ensures
        diff_keys(e, e, ks, path) == Seq::<(Seq<char>, Seq<char>, Seq<char>)>::empty(),
    decreases e, ks.len(),
{
    if ks.len() > 0 {
        lemma_diff_keys_reflexive(e, ks.drop_last(), path);
        let k = ks.last();
        let i = key_index(e, k);
        if 0 <= i < e.len() {
            law_diff_reflexive(e[i].1, child(path, k));
        }
        assert(diff_keys(e, e, ks, path) =~= Seq::<(Seq<char>, Seq<char>, Seq<char>)>::empty());
    }
}

proof fn lemma_diff_items_reflexive(xs: Seq<JVal>, n: nat, path: Seq<char>)
    ensures
        diff_items(xs, xs, n, path) == Seq::<(Seq<char>, Seq<char>, Seq<char>)>::empty(),
    decreases xs, n,
{
    if n > 0 {
        lemma_diff_items_reflexive(xs, (n - 1) as nat, path);
        let i = n - 1;
        if i < xs.len() {
            law_diff_reflexive(xs[i], child(path, dec_text(i as nat)));
        }
        assert(diff_items(xs, xs, n, path) =~= Seq::<(Seq<char>, Seq<char>, Seq<char>)>::empty());
    }
}

/// The position of the first entry with key `k`.
pub fn key_index_of(e: &Vec<(String, Json)>, k: &String) -> (r: Option<usize>)
    ensures
        match r {
            Some(i) => key_index(jv_obj(e@), k@) == i as int,
            None => key_index(jv_obj(e@), k@) == -1,
        },
{
    let ghost s = jv_obj(e@);
    proof {
        lemma_jv_obj(e@);
    }
    let mut i: usize = 0;
    assert(s.subrange(0, 0) =~= Seq::<(Seq<char>, JVal)>::empty());
    while i < e.len()
        invariant
            s == jv_obj(e@),
            s.len() == e@.len(),
            forall|j: int| 0 <= j < e@.len() ==> #[trigger] s[j] == (e@[j].0@, jv(e@[j].1)),
            i <= e@.len(),
            key_index(s.subrange(0, i as int), k@) == -1,
        decreases e@.len() - i,
    {
        let ghost pre = s.subrange(0, i + 1);
        assert(pre.drop_last() =~= s.subrange(0, i as int));
        assert(pre.last() == s[i as int]);
        if str_eq_str(e[i].0.as_str(), k.as_str()) {
            proof {
                lemma_key_index_prefix(s, i + 1, k@);
            }
            return Some(i);
        }
        i += 1;
    }
    assert(s.subrange(0, e@.len() as int) =~= s);
    None
}

fn child_path(path: &String, k: &str) -> (r: String)
    ensures
        r@ == child(path@, k@),
{
    let mut p = path.clone();
    p.append("/");
    p.append(k);
    p
}

fn absent_text() -> (r: String)
    ensures
        r@ == absent(),
{
    "<absent>".to_owned()
}

/// Equality of two values that are not both arrays and not both objects.
fn scalar_eq(a: &Json, b: &Json) -> (r: bool)
    requires
        !(a is Arr && b is Arr),
        !(a is Obj && b is Obj),
    ensures
        r == (a@ == b@),
{
    match (a, b) {
        (Json::Null, Json::Null) => true,
        (Json::Bool(x), Json::Bool(y)) => *x == *y,
        (Json::Num(x), Json::Num(y)) => str_eq_str(x.as_str(), y.as_str()),
        (Json::Str(x), Json::Str(y)) => str_eq_str(x.as_str(), y.as_str()),
        _ => false,
    }
}

fn push_entry(out: &mut Vec<DiffEntry>, path: String, left: String, right: String)
    ensures
        dviews(final(out)@) == dviews(old(out)@).push((path@, left@, right@)),
{
    let ghost before = dviews(out@);
    out.push(DiffEntry { path, left, right });
    assert(dviews(out@) =~= before.push((path@, left@, right@)));
}

/// Appends the differences between `a` and `b` below `path`.
pub fn collect_diffs(a: &Json, b: &Json, path: &String, out: &mut Vec<DiffEntry>)
    ensures
        dviews(final(out)@) == dviews(old(out)@) + diff_spec(a@, b@, path@),
    decreases a,
{
    let ghost start = dviews(out@);
    match (a, b) {
        (Json::Obj(ea), Json::Obj(eb)) => {
            let ghost sa = jv_obj(ea@);
            let ghost sb = jv_obj(eb@);
            proof {
                lemma_jv_obj(ea@);
                lemma_jv_obj(eb@);
            }
            let ks = union_keys_of(ea, eb);
            let ghost sk = sviews(ks@);
            let mut t: usize = 0;
            assert(sk.subrange(0, 0) =~= Seq::<Seq<char>>::empty());
            assert(dviews(out@) =~= start + Seq::empty());
            while t < ks.len()
                invariant
                    *a == Json::Obj(*ea),
                    sa == jv_obj(ea@),
                    sb == jv_obj(eb@),
                    sa.len() == ea@.len(),
                    sb.len() == eb@.len(),
                    forall|j: int| 0 <= j < ea@.len() ==> #[trigger] sa[j] == (ea@[j].0@, jv(ea@[j].1)),
                    forall|j: int| 0 <= j < eb@.len() ==> #[trigger] sb[j] == (eb@[j].0@, jv(eb@[j].1)),
                    sk == sviews(ks@),
                    sk == union_keys(sa, sb),
                    t <= ks@.len(),
                    dviews(out@) == start + diff_keys(sa, sb, sk.subrange(0, t as int), path@),
                decreases ks@.len() - t,
            {
                let ghost before = dviews(out@);
                let k = &ks[t];
                let p = child_path(path, k.as_str());
                let ia = key_index_of(ea, k);
                let ib = key_index_of(eb, k);
                proof {
                    lemma_key_index_bounds(sa, k@);
                    lemma_key_index_bounds(sb, k@);
                }
                match (ia, ib) {
                    (Some(i), Some(j)) => {
                        proof {
                            broadcast use vstd::std_specs::vec::axiom_vec_index_decreases;

                            assert(decreases_to!(*a => (*a)->Obj_0));
                            assert(decreases_to!(*a => ea[i as int]));
                            assert(decreases_to!(*a => ea[i as int].1));
                        }
                        collect_diffs(&ea[i].1, &eb[j].1, &p, out);
                    },
                    (Some(i), None) => {
                        push_entry(out, p, encode(&ea[i].1), absent_text());
                    },
                    (None, Some(j)) => {
                        push_entry(out, p, absent_text(), encode(&eb[j].1));
                    },
                    (None, None) => {},
                }
                proof {
                    let pre = sk.subrange(0, t + 1);
                    assert(pre.drop_last() =~= sk.subrange(0, t as int));
                    assert(pre.last() == k@);
                    assert(dviews(out@) =~= start + diff_keys(sa, sb, pre, path@));
                }
                t += 1;
            }
            assert(sk.subrange(0, ks@.len() as int) =~= sk);
            assert(dviews(out@) =~= start + diff_spec(a@, b@, path@));
        },
        (Json::Arr(xa), Json::Arr(xb)) => {
            let ghost sa = jv_arr(xa@);
            let ghost sb = jv_arr(xb@);
            proof {
                lemma_jv_arr(xa@);
                lemma_jv_arr(xb@);
            }
            let n = if xa.len() >= xb.len() {
                xa.len()
            } else {
                xb.len()
            };
            let mut i: usize = 0;
            assert(dviews(out@) =~= start + Seq::empty());
            while i < n
                invariant
                    *a == Json::Arr(*xa),
                    sa == jv_arr(xa@),
                    sb == jv_arr(xb@),
                    sa.len() == xa@.len(),
                    sb.len() == xb@.len(),
                    forall|j: int| 0 <= j < xa@.len() ==> #[trigger] sa[j] == jv(xa@[j]),
                    forall|j: int| 0 <= j < xb@.len() ==> #[trigger] sb[j] == jv(xb@[j]),
                    n == if xa@.len() >= xb@.len() {
                        xa@.len()
                    } else {
                        xb@.len()
                    },
                    i <= n,
                    dviews(out@) == start + diff_items(sa, sb, i as nat, path@),
                decreases n - i,
            {
                let ghost before = dviews(out@);
                let idx = dec_string(i as u64);
                let p = child_path(path, idx.as_str());
                if i < xa.len() && i < xb.len() {
                    proof {
                        broadcast use vstd::std_specs::vec::axiom_vec_index_decreases;

                        assert(decreases_to!(*a => (*a)->Arr_0));
                        assert(decreases_to!(*a => xa[i as int]));
                    }
                    collect_diffs(&xa[i], &xb[i], &p, out);
                } else if i < xa.len() {
                    push_entry(out, p, encode(&xa[i]), absent_text());
                } else if i < xb.len() {
                    push_entry(out, p, absent_text(), encode(&xb[i]));
                }
                assert(dviews(out@) =~= start + diff_items(sa, sb, (i + 1) as nat, path@));
                i += 1;
            }
            assert(dviews(out@) =~= start + diff_spec(a@, b@, path@));
        },
        _ => {
            if !scalar_eq(a, b) {
                push_entry(out, path.clone(), encode(a), encode(b));
            } else {
                assert(dviews(out@) =~= start + Seq::empty());
            }
        },
    }
}

/// The differences between two trees, each addressed by a path that starts
/// with `base_path`: objects are compared key by key in increasing key order,
/// arrays position by position, other values by equality.
pub fn diff(left: &Json, right: &Json, base_path: &str) -> (r: Vec<DiffEntry>)
    ensures
        dviews(r@) == diff_spec(left@, right@, base_path@),
{
    let mut out: Vec<DiffEntry> = Vec::new();
    let p = base_path.to_owned();
    collect_diffs(left, right, &p, &mut out);
    assert(dviews(out@) =~= Seq::empty() + diff_spec(left@, right@, base_path@));
    out
}

} // verus!
