//! Sets of object keys held as strictly increasing sequences.
use vstd::prelude::*;
use crate::json::{jv_obj, lemma_jv_obj, JVal, Json};
use crate::order::{chars_le, lemma_seq_le_antisym, lemma_seq_le_total, lemma_seq_le_trans, seq_le, seq_lt};
use crate::text::chars_of;

verus! {

broadcast use vstd::seq_lib::group_to_multiset_ensures;

pub open spec fn sviews(s: Seq<String>) -> Seq<Seq<char>> {
    s.map_values(|k: String| k@)
}

/// The keys of object entries.
pub open spec fn key_set(e: Seq<(Seq<char>, JVal)>) -> Set<Seq<char>> {
    e.map_values(|p: (Seq<char>, JVal)| p.0).to_set()
}

pub open spec fn strictly_sorted(ks: Seq<Seq<char>>) -> bool {
    forall|i: int, j: int| 0 <= i < j < ks.len() ==> seq_lt(#[trigger] ks[i], #[trigger] ks[j])
}

/// The keys of both objects, each once, in increasing order.
pub open spec fn union_keys(ea: Seq<(Seq<char>, JVal)>, eb: Seq<(Seq<char>, JVal)>) -> Seq<Seq<char>> {
    choose|ks: Seq<Seq<char>>| strictly_sorted(ks) && ks.to_set() == key_set(ea).union(key_set(eb))
}

pub proof fn lemma_seq_lt_trans(a: Seq<char>, b: Seq<char>, c: Seq<char>)
    requires
        seq_lt(a, b),
        seq_lt(b, c),
    ensures
        seq_lt(a, c),
{
    lemma_seq_le_trans(a, b, c);
    if a == c {
        lemma_seq_le_antisym(a, b);
    }
}

/// Two strictly increasing sequences with the same elements are equal.
pub proof fn lemma_strictly_sorted_unique(s1: Seq<Seq<char>>, s2: Seq<Seq<char>>)
    requires
        strictly_sorted(s1),
        strictly_sorted(s2),
        s1.to_set() == s2.to_set(),
    ensures
        s1 == s2,
    decreases s1.len() + s2.len(),
{
    if s1.len() == 0 {
        if s2.len() > 0 {
            assert(s2.to_set().contains(s2[0]));
        }
        assert(s1 =~= s2);
    } else if s2.len() == 0 {
        assert(s1.to_set().contains(s1[0]));
    } else {
        let a = s1[0];
        let b = s2[0];
        assert(s1.to_set().contains(a));
        assert(s2.contains(a));
        let j = choose|j: int| 0 <= j < s2.len() && s2[j] == a;
        assert(s2.to_set().contains(b));
        assert(s1.contains(b));
        let k = choose|k: int| 0 <= k < s1.len() && s1[k] == b;
        if j > 0 && k > 0 {
            assert(seq_lt(b, a));
            assert(seq_lt(a, b));
            lemma_seq_le_antisym(a, b);
        }
        let t1 = s1.drop_first();
        let t2 = s2.drop_first();
        assert forall|x: Seq<char>| t1.to_set().contains(x) <==> s1.to_set().remove(a).contains(x) by {
            if t1.contains(x) {
                let i = choose|i: int| 0 <= i < t1.len() && t1[i] == x;
                assert(s1[i + 1] == x);
                assert(seq_lt(s1[0], s1[i + 1]));
            }
            if s1.contains(x) && x != a {
                let i = choose|i: int| 0 <= i < s1.len() && s1[i] == x;
                assert(i > 0);
                assert(t1[i - 1] == x);
            }
        }
        assert forall|x: Seq<char>| t2.to_set().contains(x) <==> s2.to_set().remove(b).contains(x) by {
            if t2.contains(x) {
                let i = choose|i: int| 0 <= i < t2.len() && t2[i] == x;
                assert(s2[i + 1] == x);
                assert(seq_lt(s2[0], s2[i + 1]));
            }
            if s2.contains(x) && x != b {
                let i = choose|i: int| 0 <= i < s2.len() && s2[i] == x;
                assert(i > 0);
                assert(t2[i - 1] == x);
            }
        }
        assert(t1.to_set() =~= t2.to_set());
        assert forall|i: int, j: int| 0 <= i < j < t1.len() implies seq_lt(#[trigger] t1[i], #[trigger] t1[j]) by {
            assert(seq_lt(s1[i + 1], s1[j + 1]));
        }
        assert forall|i: int, j: int| 0 <= i < j < t2.len() implies seq_lt(#[trigger] t2[i], #[trigger] t2[j]) by {
            assert(seq_lt(s2[i + 1], s2[j + 1]));
        }
        lemma_strictly_sorted_unique(t1, t2);
        assert(s1 =~= seq![a] + t1);
        assert(s2 =~= seq![b] + t2);
    }
}

proof fn lemma_key_set_push(s: Seq<(Seq<char>, JVal)>, i: int)
    requires
        0 <= i < s.len(),
    ensures
        key_set(s.subrange(0, i + 1)) == key_set(s.subrange(0, i)).insert(s[i].0),
{
    broadcast use vstd::seq_lib::group_seq_properties;

    let m = s.subrange(0, i + 1).map_values(|p: (Seq<char>, JVal)| p.0);
    let m0 = s.subrange(0, i).map_values(|p: (Seq<char>, JVal)| p.0);
    assert(m =~= m0.push(s[i].0));
    assert(m.to_set() =~= m0.to_set().insert(s[i].0));
}

fn text_le(a: &String, b: &String) -> (r: bool)
    ensures
        r == seq_le(a@, b@),
{
    let x = chars_of(a.as_str());
    let y = chars_of(b.as_str());
    chars_le(x.as_slice(), y.as_slice())
}

/// Adds `k` to the increasing sequence `ks` unless it is there already.
pub fn insert_key(ks: &mut Vec<String>, k: &String)
    requires
        strictly_sorted(sviews(old(ks)@)),
    ensures
        strictly_sorted(sviews(final(ks)@)),
        sviews(final(ks)@).to_set() == sviews(old(ks)@).to_set().insert(k@),
{
    let ghost s = sviews(ks@);
    let mut p: usize = 0;
    while p < ks.len() && !text_le(k, &ks[p])
        invariant
            s == sviews(ks@),
            p <= ks@.len(),
            forall|i: int| 0 <= i < p ==> seq_lt(#[trigger] s[i], k@),
        decreases ks@.len() - p,
    {
        proof {
            lemma_seq_le_total(k@, s[p as int]);
            if s[p as int] == k@ {
                crate::order::lemma_seq_le_refl(k@);
            }
        }
        p += 1;
    }
    if p < ks.len() && crate::text::str_eq_str(ks[p].as_str(), k.as_str()) {
        assert(s[p as int] == ks@[p as int]@);
        assert(s.contains(k@));
        assert(s.to_set().insert(k@) =~= s.to_set());
        return;
    }
    ks.insert(p, k.clone());
    proof {
        let n = sviews(ks@);
        assert(n =~= s.insert(p as int, k@));
        if p < s.len() {
            assert(seq_le(k@, s[p as int]));
            assert(seq_lt(k@, s[p as int]));
        }
        assert forall|i: int, j: int| 0 <= i < j < n.len() implies seq_lt(#[trigger] n[i], #[trigger] n[j]) by {
            if j < p {
            } else if j == p {
            } else if i < p {
                if p < s.len() {
                    lemma_seq_lt_trans(s[i], k@, s[p as int]);
                    if j - 1 > p {
                        lemma_seq_lt_trans(s[i], s[p as int], s[j - 1]);
                    }
                }
            } else if i == p {
                if j - 1 > p {
                    lemma_seq_lt_trans(k@, s[p as int], s[j - 1]);
                }
            } else {
                assert(seq_lt(s[i - 1], s[j - 1]));
            }
        }
        assert forall|x: Seq<char>| n.to_set().contains(x) <==> s.to_set().insert(k@).contains(x) by {
            if n.contains(x) {
                let i = choose|i: int| 0 <= i < n.len() && n[i] == x;
                if i < p {
                    assert(s[i] == x);
                } else if i > p {
                    assert(s[i - 1] == x);
                }
            }
            if s.contains(x) {
                let i = choose|i: int| 0 <= i < s.len() && s[i] == x;
                if i < p {
                    assert(n[i] == x);
                } else {
                    assert(n[i + 1] == x);
                }
            }
            if x == k@ {
                assert(n[p as int] == x);
            }
        }
        assert(n.to_set() =~= s.to_set().insert(k@));
    }
}

/// The keys of both objects, each once, in increasing order.
pub fn union_keys_of(ea: &Vec<(String, Json)>, eb: &Vec<(String, Json)>) -> (r: Vec<String>)
    ensures
        sviews(r@) == union_keys(jv_obj(ea@), jv_obj(eb@)),
        strictly_sorted(sviews(r@)),
        sviews(r@).to_set() == key_set(jv_obj(ea@)).union(key_set(jv_obj(eb@))),
{
    let ghost sa = jv_obj(ea@);
    let ghost sb = jv_obj(eb@);
    proof {
        lemma_jv_obj(ea@);
        lemma_jv_obj(eb@);
    }
    let mut ks: Vec<String> = Vec::new();
    assert(sviews(ks@).to_set() =~= Set::<Seq<char>>::empty());
    let mut i: usize = 0;
    while i < ea.len()
        invariant
            sa == jv_obj(ea@),
            sa.len() == ea@.len(),
            forall|k: int| 0 <= k < ea@.len() ==> #[trigger] sa[k] == (ea@[k].0@, crate::json::jv(ea@[k].1)),
            i <= ea@.len(),
            strictly_sorted(sviews(ks@)),
            sviews(ks@).to_set() == key_set(sa.subrange(0, i as int)),
        decreases ea@.len() - i,
    {
        insert_key(&mut ks, &ea[i].0);
        proof {
            lemma_key_set_push(sa, i as int);
        }
        i += 1;
    }
    assert(sa.subrange(0, ea@.len() as int) =~= sa);
    let mut j: usize = 0;
    assert(sb.subrange(0, 0) =~= Seq::<(Seq<char>, JVal)>::empty());
    assert(key_set(sb.subrange(0, 0)) =~= Set::<Seq<char>>::empty());
    assert(key_set(sa).union(key_set(sb.subrange(0, 0))) =~= key_set(sa));
    while j < eb.len()
        invariant
            sb == jv_obj(eb@),
            sb.len() == eb@.len(),
            forall|k: int| 0 <= k < eb@.len() ==> #[trigger] sb[k] == (eb@[k].0@, crate::json::jv(eb@[k].1)),
            j <= eb@.len(),
            strictly_sorted(sviews(ks@)),
            sviews(ks@).to_set() == key_set(sa).union(key_set(sb.subrange(0, j as int))),
        decreases eb@.len() - j,
    {
        insert_key(&mut ks, &eb[j].0);
        proof {
            let pre = sb.subrange(0, j + 1);
            lemma_key_set_push(sb, j as int);
            assert(sviews(ks@).to_set() =~= key_set(sa).union(key_set(pre)));
        }
        j += 1;
    }
    assert(sb.subrange(0, eb@.len() as int) =~= sb);
    proof {
        let u = union_keys(sa, sb);
        assert(strictly_sorted(u) && u.to_set() == key_set(sa).union(key_set(sb)));
        lemma_strictly_sorted_unique(u, sviews(ks@));
    }
    ks
}

} // verus!
