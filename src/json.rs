//! A JSON-like tree and its mathematical model.
use vstd::prelude::*;

verus! {

/// A JSON value. Numbers keep their JSON text, and two numbers are the same
/// when their texts are; objects keep their entries in the order given.
pub enum Json {
    Null,
    Bool(bool),
    Num(String),
    Str(String),
    Arr(Vec<Json>),
    Obj(Vec<(String, Json)>),
}

/// The model of a `Json` value.
pub enum JVal {
    Null,
    Bool(bool),
    Num(Seq<char>),
    Str(Seq<char>),
    Arr(Seq<JVal>),
    Obj(Seq<(Seq<char>, JVal)>),
}

pub open spec fn jv(j: Json) -> JVal
    decreases j,
{
    match j {
        Json::Null => JVal::Null,
        Json::Bool(b) => JVal::Bool(b),
        Json::Num(t) => JVal::Num(t@),
        Json::Str(s) => JVal::Str(s@),
        Json::Arr(v) => JVal::Arr(jv_arr(v@)),
        Json::Obj(v) => JVal::Obj(jv_obj(v@)),
    }
}

pub open spec fn jv_arr(s: Seq<Json>) -> Seq<JVal>
    decreases s,
{
    if s.len() == 0 {
        Seq::empty()
    } else {
        jv_arr(s.drop_last()).push(jv(s.last()))
    }
}

pub open spec fn jv_obj(s: Seq<(String, Json)>) -> Seq<(Seq<char>, JVal)>
    decreases s,
{
    if s.len() == 0 {
        Seq::empty()
    } else {
        jv_obj(s.drop_last()).push((s.last().0@, jv(s.last().1)))
    }
}

/// The value under key `k` in the entries `s`: the first entry with that key.
pub open spec fn lookup(s: Seq<(Seq<char>, JVal)>, k: Seq<char>) -> Option<JVal>
    decreases s.len(),
{
    if s.len() == 0 {
        None
    } else if s[0].0 == k {
        Some(s[0].1)
    } else {
        lookup(s.drop_first(), k)
    }
}

/// The value under the first of `keys` that `s` holds.
pub open spec fn first_of(s: Seq<(Seq<char>, JVal)>, keys: Seq<Seq<char>>) -> Option<JVal>
    decreases keys.len(),
{
    if keys.len() == 0 {
        None
    } else {
        match lookup(s, keys[0]) {
            Some(v) => Some(v),
            None => first_of(s, keys.drop_first()),
        }
    }
}

pub open spec fn key_views(keys: Seq<&str>) -> Seq<Seq<char>> {
    keys.map_values(|k: &str| k@)
}

pub proof fn lemma_jv_arr(s: Seq<Json>)
    ensures
        jv_arr(s).len() == s.len(),
        forall|i: int| 0 <= i < s.len() ==> #[trigger] jv_arr(s)[i] == jv(s[i]),
    decreases s.len(),
{
    if s.len() > 0 {
        lemma_jv_arr(s.drop_last());
    }
}

pub proof fn lemma_jv_obj(s: Seq<(String, Json)>)
    ensures
        jv_obj(s).len() == s.len(),
        forall|i: int| 0 <= i < s.len() ==> #[trigger] jv_obj(s)[i] == (s[i].0@, jv(s[i].1)),
    decreases s.len(),
{
    if s.len() > 0 {
        lemma_jv_obj(s.drop_last());
    }
}

proof fn lemma_lookup_step(s: Seq<(Seq<char>, JVal)>, i: int, k: Seq<char>)
    requires
        0 <= i < s.len(),
        s[i].0 != k,
    ensures
        lookup(s.subrange(i, s.len() as int), k) == lookup(s.subrange(i + 1, s.len() as int), k),
{
    assert(s.subrange(i, s.len() as int).drop_first() =~= s.subrange(i + 1, s.len() as int));
}

/// The value under `key` in the object entries `e`.
pub fn obj_get<'a>(e: &'a Vec<(String, Json)>, key: &str) -> (r: Option<&'a Json>)
    ensures
        match r {
            Some(j) => lookup(jv_obj(e@), key@) == Some(j@),
            None => lookup(jv_obj(e@), key@) is None,
        },
{
    proof {
        lemma_jv_obj(e@);
    }
    let ghost s = jv_obj(e@);
    let mut i: usize = 0;
    assert(s.subrange(0, s.len() as int) =~= s);
    while i < e.len()
        invariant
            s == jv_obj(e@),
            s.len() == e@.len(),
            forall|j: int| 0 <= j < e@.len() ==> #[trigger] s[j] == (e@[j].0@, jv(e@[j].1)),
            i <= e@.len(),
            lookup(s, key@) == lookup(s.subrange(i as int, s.len() as int), key@),
        decreases e@.len() - i,
    {
        if crate::text::str_eq_str(e[i].0.as_str(), key) {
            assert(s.subrange(i as int, s.len() as int)[0] == s[i as int]);
            return Some(&e[i].1);
        }
        proof {
            lemma_lookup_step(s, i as int, key@);
        }
        i += 1;
    }
    None
}

/// The value under the first of `keys` that `e` holds.
pub fn obj_first<'a>(e: &'a Vec<(String, Json)>, keys: &[&str]) -> (r: Option<&'a Json>)
    ensures
        match r {
            Some(j) => first_of(jv_obj(e@), key_views(keys@)) == Some(j@),
            None => first_of(jv_obj(e@), key_views(keys@)) is None,
        },
{
    let ghost ks = key_views(keys@);
    let mut i: usize = 0;
    assert(ks.subrange(0, ks.len() as int) =~= ks);
    while i < keys.len()
        invariant
            ks == key_views(keys@),
            ks.len() == keys@.len(),
            i <= keys@.len(),
            first_of(jv_obj(e@), ks) == first_of(jv_obj(e@), ks.subrange(i as int, ks.len() as int)),
        decreases keys@.len() - i,
    {
        let r = obj_get(e, keys[i]);
        assert(ks.subrange(i as int, ks.len() as int).drop_first() =~= ks.subrange(i + 1, ks.len() as int));
        if r.is_some() {
            return r;
        }
        i += 1;
    }
    None
}

impl Json {
    /// A copy with the same model.
    pub fn deep_copy(&self) -> (r: Json)
        ensures
            r@ == self@,
        decreases self,
    {
        match self {
            Json::Null => Json::Null,
            Json::Bool(b) => Json::Bool(*b),
            Json::Num(t) => Json::Num(t.clone()),
            Json::Str(t) => Json::Str(t.clone()),
            Json::Arr(v) => {
                let mut out: Vec<Json> = Vec::new();
                let mut i: usize = 0;
                while i < v.len()
                    invariant
                        *self == Json::Arr(*v),
                        i <= v@.len(),
                        out@.len() == i,
                        forall|j: int| 0 <= j < i ==> #[trigger] jv(out@[j]) == jv(v@[j]),
                    decreases v@.len() - i,
                {
                    proof {
                        broadcast use vstd::std_specs::vec::axiom_vec_index_decreases;

                        assert(decreases_to!(*self => (*self)->Arr_0));
                        assert(decreases_to!(*self => v[i as int]));
                    }
                    out.push(v[i].deep_copy());
                    i += 1;
                }
                proof {
                    lemma_jv_arr(out@);
                    lemma_jv_arr(v@);
                    assert(jv_arr(out@) =~= jv_arr(v@));
                }
                Json::Arr(out)
            },
            Json::Obj(v) => {
                let mut out: Vec<(String, Json)> = Vec::new();
                let mut i: usize = 0;
                while i < v.len()
                    invariant
                        *self == Json::Obj(*v),
                        i <= v@.len(),
                        out@.len() == i,
                        forall|j: int|
                            0 <= j < i ==> #[trigger] out@[j].0@ == v@[j].0@ && jv(out@[j].1) == jv(
                                v@[j].1,
                            ),
                    decreases v@.len() - i,
                {
                    proof {
                        broadcast use vstd::std_specs::vec::axiom_vec_index_decreases;

                        assert(decreases_to!(*self => (*self)->Obj_0));
                        assert(decreases_to!(*self => v[i as int]));
                    }
                    out.push((v[i].0.clone(), v[i].1.deep_copy()));
                    i += 1;
                }
                proof {
                    lemma_jv_obj(out@);
                    lemma_jv_obj(v@);
                    assert(jv_obj(out@) =~= jv_obj(v@));
                }
                Json::Obj(out)
            },
        }
    }
}

impl View for Json {
    type V = JVal;

    open spec fn view(&self) -> JVal {
        jv(*self)
    }
}

} // verus!
