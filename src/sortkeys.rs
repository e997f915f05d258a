//! The generic key sort: every object's entries in increasing key order.
use vstd::prelude::*;
use crate::diff::{child, diff_items, diff_keys, diff_spec, key_index, lemma_key_index_bounds};
use crate::encode::{enc, encode};
use crate::json::{jv, jv_arr, jv_obj, lemma_jv_arr, lemma_jv_obj, JVal, Json};
use crate::keys::{key_set, lemma_strictly_sorted_unique, strictly_sorted, sviews, union_keys, union_keys_of};
use crate::laws::{
    keys_of, lemma_entries_sorted_all, lemma_items_sorted_all,
    lemma_key_index_found, lemma_key_index_unique, lemma_union_exists, sorted_keys,
};

verus! {

/// The diff finds nothing between `a` and `b`, under any base path.
pub open spec fn same_tree(a: JVal, b: JVal) -> bool {
    forall|p: Seq<char>| (#[trigger] diff_spec(a, b, p)).len() == 0
}

proof fn lemma_diff_keys_all_empty(
    ea: Seq<(Seq<char>, JVal)>,
    eb: Seq<(Seq<char>, JVal)>,
    ks: Seq<Seq<char>>,
    path: Seq<char>,
)
    requires
        forall|t: int|
            0 <= t < ks.len() ==> 0 <= #[trigger] key_index(ea, ks[t]) < ea.len() && 0 <= key_index(
                eb,
                ks[t],
            ) < eb.len() && same_tree(ea[key_index(ea, ks[t])].1, eb[key_index(eb, ks[t])].1),
    ensures
        diff_keys(ea, eb, ks, path).len() == 0,
    decreases ks.len(),
{
    if ks.len() > 0 {
        assert forall|t: int| 0 <= t < ks.drop_last().len() implies 0 <= #[trigger] key_index(
            ea,
            ks.drop_last()[t],
        ) < ea.len() && 0 <= key_index(eb, ks.drop_last()[t]) < eb.len() && same_tree(
            ea[key_index(ea, ks.drop_last()[t])].1,
            eb[key_index(eb, ks.drop_last()[t])].1,
        ) by {
            assert(ks.drop_last()[t] == ks[t]);
        }
        lemma_diff_keys_all_empty(ea, eb, ks.drop_last(), path);
        let k = ks.last();
        assert(0 <= key_index(ea, ks[ks.len() - 1]) < ea.len());
        let ia = key_index(ea, k);
        let ib = key_index(eb, k);
        assert(diff_spec(ea[ia].1, eb[ib].1, child(path, k)).len() == 0);
    }
}

proof fn lemma_diff_items_all_empty(xa: Seq<JVal>, xb: Seq<JVal>, n: nat, path: Seq<char>)
    requires
        xa.len() == xb.len(),
        n <= xa.len(),
        forall|i: int| 0 <= i < xa.len() ==> same_tree(#[trigger] xa[i], xb[i]),
    ensures
        diff_items(xa, xb, n, path).len() == 0,
    decreases n,
{
    if n > 0 {
        lemma_diff_items_all_empty(xa, xb, (n - 1) as nat, path);
        let i = n - 1;
        assert(same_tree(xa[i], xb[i]));
        assert(diff_spec(xa[i], xb[i], child(path, crate::canon::dec_text(i as nat))).len() == 0);
    }
}

/// The same tree with every object's entries in increasing key order, each
/// key once with its first value.
pub fn sort_keys(j: &Json) -> (r: Json)
    ensures
        sorted_keys(r@),
        same_tree(j@, r@),
    decreases j,
{
    match j {
        Json::Obj(e) => {
            let ghost se = jv_obj(e@);
            proof {
                lemma_jv_obj(e@);
                lemma_union_exists(se, se);
            }
            let ks = union_keys_of(e, e);
            let ghost sk = sviews(ks@);
            assert(key_set(se).union(key_set(se)) =~= key_set(se));
            let mut out: Vec<(String, Json)> = Vec::new();
            let mut t: usize = 0;
            while t < ks.len()
                invariant
                    *j == Json::Obj(*e),
                    se == jv_obj(e@),
                    se.len() == e@.len(),
                    forall|x: int| 0 <= x < e@.len() ==> #[trigger] se[x] == (e@[x].0@, jv(e@[x].1)),
                    sk == sviews(ks@),
                    strictly_sorted(sk),
                    sk.to_set() == key_set(se),
                    t <= ks@.len(),
                    out@.len() == t,
                    forall|x: int|
                        0 <= x < t ==> #[trigger] out@[x].0@ == sk[x] && 0 <= key_index(se, sk[x])
                            < se.len() && sorted_keys(jv(out@[x].1)) && same_tree(
                            se[key_index(se, sk[x])].1,
                            jv(out@[x].1),
                        ),
                decreases ks@.len() - t,
            {
                let k = &ks[t];
                proof {
                    assert(sk.to_set().contains(sk[t as int]));
                    lemma_key_index_found(se, k@);
                    lemma_key_index_bounds(se, k@);
                }
                let i = match crate::diff::key_index_of(e, k) {
                    Some(i) => i,
                    None => {
                        assert(false);
                        0
                    },
                };
                proof {
                    broadcast use vstd::std_specs::vec::axiom_vec_index_decreases;

                    assert(decreases_to!(*j => (*j)->Obj_0));
                    assert(decreases_to!(*j => e[i as int]));
                    assert(decreases_to!(*j => e[i as int].1));
                }
                let v = sort_keys(&e[i].1);
                out.push((k.clone(), v));
                t += 1;
            }
            let ghost so = jv_obj(out@);
            proof {
                lemma_jv_obj(out@);
                assert(keys_of(so) =~= sk);
                assert forall|x: int| 0 <= x < so.len() implies #[trigger] sorted_keys(so[x].1) by {
                    assert(so[x].1 == jv(out@[x].1));
                }
                lemma_entries_sorted_all(so);
                assert(key_set(so) =~= key_set(se)) by {
                    assert(keys_of(so) =~= so.map_values(|p: (Seq<char>, JVal)| p.0));
                }
                lemma_union_exists(se, so);
                assert(key_set(se).union(key_set(so)) =~= key_set(se));
                lemma_strictly_sorted_unique(union_keys(se, so), sk);
                assert forall|t: int| 0 <= t < sk.len() implies 0 <= #[trigger] key_index(se, sk[t]) < se.len()
                    && 0 <= key_index(so, sk[t]) < so.len() && same_tree(
                    se[key_index(se, sk[t])].1,
                    so[key_index(so, sk[t])].1,
                ) by {
                    assert(so[t].0 == sk[t]);
                    lemma_key_index_unique(so, t);
                    assert(so[t].1 == jv(out@[t].1));
                }
                assert forall|p: Seq<char>| (#[trigger] diff_spec(j@, jv(Json::Obj(out)), p)).len() == 0 by {
                    lemma_diff_keys_all_empty(se, so, sk, p);
                }
            }
            Json::Obj(out)
        },
        Json::Arr(xs) => {
            let ghost sx = jv_arr(xs@);
            proof {
                lemma_jv_arr(xs@);
            }
            let mut out: Vec<Json> = Vec::new();
            let mut i: usize = 0;
            while i < xs.len()
                invariant
                    *j == Json::Arr(*xs),
                    sx == jv_arr(xs@),
                    sx.len() == xs@.len(),
                    forall|x: int| 0 <= x < xs@.len() ==> #[trigger] sx[x] == jv(xs@[x]),
                    i <= xs@.len(),
                    out@.len() == i,
                    forall|x: int|
                        0 <= x < i ==> sorted_keys(#[trigger] jv(out@[x])) && same_tree(sx[x], jv(out@[x])),
                decreases xs@.len() - i,
            {
                proof {
                    broadcast use vstd::std_specs::vec::axiom_vec_index_decreases;

                    assert(decreases_to!(*j => (*j)->Arr_0));
                    assert(decreases_to!(*j => xs[i as int]));
                }
                let v = sort_keys(&xs[i]);
                out.push(v);
                i += 1;
            }
            let ghost so = jv_arr(out@);
            proof {
                lemma_jv_arr(out@);
                assert forall|x: int| 0 <= x < so.len() implies #[trigger] sorted_keys(so[x]) by {
                    assert(so[x] == jv(out@[x]));
                }
                lemma_items_sorted_all(so);
                assert forall|x: int| 0 <= x < sx.len() implies same_tree(#[trigger] sx[x], so[x]) by {
                    assert(so[x] == jv(out@[x]));
                }
                assert forall|p: Seq<char>| (#[trigger] diff_spec(j@, jv(Json::Arr(out)), p)).len() == 0 by {
                    lemma_diff_items_all_empty(sx, so, sx.len(), p);
                }
            }
            Json::Arr(out)
        },
        _ => {
            let r = j.deep_copy();
            assert forall|p: Seq<char>| (#[trigger] diff_spec(j@, r@, p)).len() == 0 by {
                crate::diff::law_diff_reflexive(j@, p);
            }
            r
        },
    }
}

/// The compact JSON text of `value` with every object's keys in increasing
/// order.
pub fn to_canonical_json(value: &Json) -> (r: String)
    ensures
        exists|s: JVal| sorted_keys(s) && same_tree(value@, s) && r@ == enc(s),
{
    let s = sort_keys(value);
    encode(&s)
}

} // verus!
