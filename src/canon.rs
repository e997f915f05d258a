//! Graph canonicalization: normalize every node and put the nodes in order.
use vstd::prelude::*;
use crate::alias::{PadMode, WindowKind};
use crate::json::{jv, jv_arr, jv_obj, lemma_jv_arr, lemma_jv_obj, lookup, obj_get, JVal, Json};
use crate::normalize::{normalize, normalize_spec, CNode, CanonNode, NErr, NormalizeError};
use crate::text::push_char;
use crate::order::{
    lemma_node_le_antisym, lemma_node_le_refl, lemma_node_le_total, lemma_node_le_trans, node_le,
    node_le_of,
};

verus! {

broadcast use vstd::seq_lib::group_to_multiset_ensures;

pub open spec fn cviews(s: Seq<CanonNode>) -> Seq<CNode> {
    s.map_values(|n: CanonNode| n@)
}

/// Each node comes before or equals every later one.
pub open spec fn nodes_sorted(s: Seq<CNode>) -> bool {
    forall|i: int, j: int| 0 <= i < j < s.len() ==> node_le(#[trigger] s[i], #[trigger] s[j])
}

/// Two sorted orderings of the same nodes are the same sequence.
pub proof fn lemma_sorted_unique(s1: Seq<CNode>, s2: Seq<CNode>)
    requires
        nodes_sorted(s1),
        nodes_sorted(s2),
        s1.to_multiset() == s2.to_multiset(),
    ensures
        s1 == s2,
    decreases s1.len(),
{
    assert(s1.len() == s1.to_multiset().len());
    assert(s2.len() == s2.to_multiset().len());
    if s1.len() > 0 {
        let a = s1[0];
        let b = s2[0];
        assert(s1.contains(a));
        assert(s2.to_multiset().count(a) > 0);
        assert(s2.contains(a));
        let j = choose|j: int| 0 <= j < s2.len() && s2[j] == a;
        if j > 0 {
            assert(node_le(s2[0], s2[j]));
        } else {
            lemma_node_le_refl(b);
        }
        assert(s1.to_multiset().count(b) > 0);
        assert(s1.contains(b));
        let k = choose|k: int| 0 <= k < s1.len() && s1[k] == b;
        if k > 0 {
            assert(node_le(s1[0], s1[k]));
        } else {
            lemma_node_le_refl(a);
        }
        lemma_node_le_antisym(a, b);
        let t1 = s1.remove(0);
        let t2 = s2.remove(0);
        assert(t1.to_multiset() == s1.to_multiset().remove(a));
        assert(t2.to_multiset() == s2.to_multiset().remove(b));
        assert forall|i: int, j: int| 0 <= i < j < t1.len() implies node_le(
            #[trigger] t1[i],
            #[trigger] t1[j],
        ) by {
            assert(t1[i] == s1[i + 1] && t1[j] == s1[j + 1]);
        }
        assert forall|i: int, j: int| 0 <= i < j < t2.len() implies node_le(
            #[trigger] t2[i],
            #[trigger] t2[j],
        ) by {
            assert(t2[i] == s2[i + 1] && t2[j] == s2[j + 1]);
        }
        lemma_sorted_unique(t1, t2);
        assert(s1 =~= seq![a] + t1);
        assert(s2 =~= seq![b] + t2);
    }
}

/// The nodes of `s` in the order of canonical nodes.
pub open spec fn sort_nodes_spec(s: Seq<CNode>) -> Seq<CNode> {
    choose|t: Seq<CNode>| nodes_sorted(t) && t.to_multiset() == s.to_multiset()
}

pub proof fn lemma_sort_nodes_spec(s: Seq<CNode>, t: Seq<CNode>)
    requires
        nodes_sorted(t),
        t.to_multiset() == s.to_multiset(),
    ensures
        sort_nodes_spec(s) == t,
{
    let u = sort_nodes_spec(s);
    assert(nodes_sorted(u) && u.to_multiset() == s.to_multiset());
    lemma_sorted_unique(u, t);
}

/// Puts the nodes in the order of canonical nodes.
pub fn sort_nodes(v: Vec<CanonNode>) -> (r: Vec<CanonNode>)
    ensures
        nodes_sorted(cviews(r@)),
        cviews(r@).to_multiset() == cviews(v@).to_multiset(),
        cviews(r@) == sort_nodes_spec(cviews(v@)),
{
    let mut rem = v;
    let mut out: Vec<CanonNode> = Vec::new();
    assert(cviews(out@) =~= Seq::<CNode>::empty());
    assert(cviews(out@).to_multiset().add(cviews(rem@).to_multiset()) =~= cviews(v@).to_multiset());
    while rem.len() > 0
        invariant
            cviews(out@).to_multiset().add(cviews(rem@).to_multiset()) == cviews(v@).to_multiset(),
            nodes_sorted(cviews(out@)),
            forall|i: int, j: int|
                0 <= i < out@.len() && 0 <= j < rem@.len() ==> node_le(
                    #[trigger] cviews(out@)[i],
                    #[trigger] cviews(rem@)[j],
                ),
        decreases rem@.len(),
    {
        let ghost rv = cviews(rem@);
        let mut m: usize = 0;
        let mut j: usize = 1;
        proof {
            lemma_node_le_refl(rv[0]);
        }
        while j < rem.len()
            invariant
                rv == cviews(rem@),
                rem@.len() > 0,
                m < rem@.len(),
                1 <= j <= rem@.len(),
                forall|k: int| 0 <= k < j ==> node_le(rv[m as int], #[trigger] rv[k]),
            decreases rem@.len() - j,
        {
            if !node_le_of(&rem[m], &rem[j]) {
                proof {
                    lemma_node_le_total(rv[m as int], rv[j as int]);
                    assert forall|k: int| 0 <= k < j + 1 implies node_le(
                        rv[j as int],
                        #[trigger] rv[k],
                    ) by {
                        if k < j {
                            lemma_node_le_trans(rv[j as int], rv[m as int], rv[k]);
                        } else {
                            lemma_node_le_refl(rv[j as int]);
                        }
                    }
                }
                m = j;
            }
            j += 1;
        }
        let ghost ov = cviews(out@);
        let x = rem.remove(m);
        out.push(x);
        proof {
            let nv = cviews(rem@);
            assert(nv =~= rv.remove(m as int));
            assert(cviews(out@) =~= ov.push(x@));
            assert(rv[m as int] == x@);
            assert(rv.remove(m as int).to_multiset() == rv.to_multiset().remove(x@));
            assert(ov.push(x@).to_multiset() == ov.to_multiset().insert(x@));
            assert(rv.contains(x@));
            assert(rv.to_multiset().count(x@) > 0);
            assert(cviews(out@).to_multiset().add(nv.to_multiset()) =~= ov.to_multiset().add(
                rv.to_multiset(),
            ));
            assert forall|a: int, b: int|
                0 <= a < b < cviews(out@).len() implies node_le(
                #[trigger] cviews(out@)[a],
                #[trigger] cviews(out@)[b],
            ) by {
                if b == ov.len() {
                    assert(node_le(ov[a], rv[m as int]));
                }
            }
            assert forall|a: int, b: int|
                0 <= a < out@.len() && 0 <= b < rem@.len() implies node_le(
                #[trigger] cviews(out@)[a],
                #[trigger] cviews(rem@)[b],
            ) by {
                let bb = if b < m {
                    b
                } else {
                    b + 1
                };
                assert(nv[b] == rv[bb]);
                if a < ov.len() {
                    assert(node_le(ov[a], rv[bb]));
                } else {
                    assert(node_le(rv[m as int], rv[bb]));
                }
            }
        }
    }
    proof {
        assert(cviews(rem@) =~= Seq::<CNode>::empty());
        assert(cviews(out@).to_multiset().add(cviews(rem@).to_multiset()) =~= cviews(
            out@,
        ).to_multiset());
        lemma_sort_nodes_spec(cviews(v@), cviews(out@));
    }
    out
}

pub open spec fn digit_char(d: nat) -> char {
    ((48 + d) as u8) as char
}

/// The decimal digits of `n`.
pub open spec fn dec_text(n: nat) -> Seq<char>
    decreases n,
{
    if n < 10 {
        seq![digit_char(n)]
    } else {
        dec_text(n / 10).push(digit_char(n % 10))
    }
}

/// The decimal digits of `n`.
pub fn dec_string(n: u64) -> (r: String)
    ensures
        r@ == dec_text(n as nat),
    decreases n,
{
    if n < 10 {
        let mut s = String::new();
        push_char(&mut s, ((48 + n) as u8) as char);
        s
    } else {
        let mut s = dec_string(n / 10);
        push_char(&mut s, ((48 + n % 10) as u8) as char);
        s
    }
}

pub open spec fn window_name(w: WindowKind) -> Seq<char> {
    match w {
        WindowKind::Hann => "Hann"@,
        WindowKind::Hamming => "Hamming"@,
        WindowKind::Blackman => "Blackman"@,
    }
}

pub open spec fn pad_name(p: PadMode) -> Seq<char> {
    match p {
        PadMode::Reflect => "reflect"@,
        PadMode::Toeplitz => "toeplitz"@,
    }
}

/// The canonical spelling of a node's operator.
pub open spec fn op_name(n: CNode) -> Seq<char> {
    match n {
        CNode::W(_) => "W"@,
        CNode::T => "T"@,
        CNode::D(..) => "D"@,
        CNode::A => "A"@,
        CNode::C => "C"@,
        CNode::Align => "Align"@,
        CNode::Phi => "Phi"@,
    }
}

/// A canonical node as a JSON object, keys in order.
pub open spec fn node_json(n: CNode) -> JVal {
    match n {
        CNode::W(p) => JVal::Obj(
            seq![
                ("center"@, JVal::Bool(p.center)),
                ("hop"@, JVal::Num(dec_text(p.hop as nat))),
                ("n_fft"@, JVal::Num(dec_text(p.n_fft as nat))),
                ("op"@, JVal::Str("W"@)),
                ("pad_mode"@, JVal::Str(pad_name(p.pad_mode))),
                ("window"@, JVal::Str(window_name(p.window))),
            ],
        ),
        CNode::D(f, a) => JVal::Obj(
            match a {
                Some(s) => seq![("aa"@, JVal::Str(s))],
                None => Seq::empty(),
            } + match f {
                Some(x) => seq![("factor"@, JVal::Num(dec_text(x as nat)))],
                None => Seq::empty(),
            } + seq![("op"@, JVal::Str("D"@))],
        ),
        _ => JVal::Obj(seq![("op"@, JVal::Str(op_name(n)))]),
    }
}

/// The normal form of a graph with the given nodes.
pub open spec fn graph_json(nodes: Seq<CNode>) -> JVal {
    JVal::Obj(
        seq![
            (
                "graph"@,
                JVal::Obj(seq![("nodes"@, JVal::Arr(nodes.map_values(|n: CNode| node_json(n))))]),
            ),
        ],
    )
}

fn text(s: &str) -> (r: String)
    ensures
        r@ == s@,
{
    s.to_owned()
}

fn window_text(w: WindowKind) -> (r: String)
    ensures
        r@ == window_name(w),
{
    match w {
        WindowKind::Hann => text("Hann"),
        WindowKind::Hamming => text("Hamming"),
        WindowKind::Blackman => text("Blackman"),
    }
}

fn pad_text(p: PadMode) -> (r: String)
    ensures
        r@ == pad_name(p),
{
    match p {
        PadMode::Reflect => text("reflect"),
        PadMode::Toeplitz => text("toeplitz"),
    }
}

/// A canonical node as a JSON object.
pub fn node_to_json(n: &CanonNode) -> (r: Json)
    ensures
        r@ == node_json(n@),
{
    let mut e: Vec<(String, Json)> = Vec::new();
    match n {
        CanonNode::W(p) => {
            e.push((text("center"), Json::Bool(p.center)));
            e.push((text("hop"), Json::Num(dec_string(p.hop))));
            e.push((text("n_fft"), Json::Num(dec_string(p.n_fft))));
            e.push((text("op"), Json::Str(text("W"))));
            e.push((text("pad_mode"), Json::Str(pad_text(p.pad_mode))));
            e.push((text("window"), Json::Str(window_text(p.window))));
        },
        CanonNode::D(d) => {
            match &d.aa {
                Some(s) => e.push((text("aa"), Json::Str(s.clone()))),
                None => {},
            }
            match d.factor {
                Some(x) => e.push((text("factor"), Json::Num(dec_string(x)))),
                None => {},
            }
            e.push((text("op"), Json::Str(text("D"))));
        },
        CanonNode::T => e.push((text("op"), Json::Str(text("T")))),
        CanonNode::A => e.push((text("op"), Json::Str(text("A")))),
        CanonNode::C => e.push((text("op"), Json::Str(text("C")))),
        CanonNode::Align => e.push((text("op"), Json::Str(text("Align")))),
        CanonNode::Phi => e.push((text("op"), Json::Str(text("Phi")))),
    }
    proof {
        lemma_jv_obj(e@);
        match node_json(n@) {
            JVal::Obj(s) => assert(jv_obj(e@) =~= s),
            _ => {},
        }
    }
    Json::Obj(e)
}

/// Why a graph has no normal form.
pub enum CanonError {
    MissingGraph,
    MissingNodesArray,
    /// The node at this position could not be normalized.
    Node(usize, NormalizeError),
}

/// The model of a `CanonError`.
pub enum CErr {
    MissingGraph,
    MissingNodesArray,
    Node(nat, NErr),
}

impl View for CanonError {
    type V = CErr;

    open spec fn view(&self) -> CErr {
        match self {
            CanonError::MissingGraph => CErr::MissingGraph,
            CanonError::MissingNodesArray => CErr::MissingNodesArray,
            CanonError::Node(i, e) => CErr::Node(*i as nat, e@),
        }
    }
}

/// The node list of a graph document `{"graph": {"nodes": [...]}}`.
pub open spec fn graph_nodes(g: JVal) -> Result<Seq<JVal>, CErr> {
    match g {
        JVal::Obj(e) => match lookup(e, "graph"@) {
            Some(JVal::Obj(ge)) => match lookup(ge, "nodes"@) {
                Some(JVal::Arr(ns)) => Ok(ns),
                _ => Err(CErr::MissingNodesArray),
            },
            _ => Err(CErr::MissingGraph),
        },
        _ => Err(CErr::MissingGraph),
    }
}

/// Every node normalized, or the first failure with the node's position.
pub open spec fn normalize_all(ns: Seq<JVal>) -> Result<Seq<CNode>, CErr>
    decreases ns.len(),
{
    if ns.len() == 0 {
        Ok(Seq::empty())
    } else {
        match normalize_all(ns.drop_last()) {
            Err(x) => Err(x),
            Ok(cs) => match normalize_spec(ns.last()) {
                Ok(c) => Ok(cs.push(c)),
                Err(x) => Err(CErr::Node((ns.len() - 1) as nat, x)),
            },
        }
    }
}

/// The normal form of a graph document.
pub open spec fn canonicalize_spec(g: JVal) -> Result<JVal, CErr> {
    match graph_nodes(g) {
        Err(x) => Err(x),
        Ok(ns) => match normalize_all(ns) {
            Err(x) => Err(x),
            Ok(cs) => Ok(graph_json(sort_nodes_spec(cs))),
        },
    }
}

pub open spec fn canon_view(r: Result<Json, CanonError>) -> Result<JVal, CErr> {
    match r {
        Ok(j) => Ok(j@),
        Err(e) => Err(e@),
    }
}

proof fn lemma_normalize_all_prefix(ns: Seq<JVal>, i: int)
    requires
        0 <= i <= ns.len(),
        normalize_all(ns.subrange(0, i)) is Err,
    ensures
        normalize_all(ns) == normalize_all(ns.subrange(0, i)),
    decreases ns.len(),
{
    if i == ns.len() {
        assert(ns.subrange(0, i) =~= ns);
    } else {
        assert(ns.drop_last().subrange(0, i) =~= ns.subrange(0, i));
        lemma_normalize_all_prefix(ns.drop_last(), i);
    }
}

fn graph_nodes_of(g: &Json) -> (r: Result<&Vec<Json>, CanonError>)
    ensures
        match r {
            Ok(v) => graph_nodes(g@) == Ok::<Seq<JVal>, CErr>(jv_arr(v@)),
            Err(x) => graph_nodes(g@) == Err::<Seq<JVal>, CErr>(x@),
        },
{
    match g {
        Json::Obj(e) => match obj_get(e, "graph") {
            Some(gj) => match gj {
                Json::Obj(ge) => match obj_get(ge, "nodes") {
                    Some(nj) => match nj {
                        Json::Arr(v) => Ok(v),
                        _ => Err(CanonError::MissingNodesArray),
                    },
                    None => Err(CanonError::MissingNodesArray),
                },
                _ => Err(CanonError::MissingGraph),
            },
            None => Err(CanonError::MissingGraph),
        },
        _ => Err(CanonError::MissingGraph),
    }
}

fn normalize_nodes(v: &Vec<Json>) -> (r: Result<Vec<CanonNode>, CanonError>)
    ensures
        match r {
            Ok(cs) => normalize_all(jv_arr(v@)) == Ok::<Seq<CNode>, CErr>(cviews(cs@)),
            Err(x) => normalize_all(jv_arr(v@)) == Err::<Seq<CNode>, CErr>(x@),
        },
{
    let ghost ns = jv_arr(v@);
    proof {
        lemma_jv_arr(v@);
    }
    let mut out: Vec<CanonNode> = Vec::new();
    let mut i: usize = 0;
    assert(ns.subrange(0, 0) =~= Seq::<JVal>::empty());
    assert(cviews(out@) =~= Seq::<CNode>::empty());
    while i < v.len()
        invariant
            ns == jv_arr(v@),
            ns.len() == v@.len(),
            forall|k: int| 0 <= k < v@.len() ==> #[trigger] ns[k] == jv(v@[k]),
            i <= v@.len(),
            normalize_all(ns.subrange(0, i as int)) == Ok::<Seq<CNode>, CErr>(cviews(out@)),
        decreases v@.len() - i,
    {
        let ghost pre = ns.subrange(0, i + 1);
        assert(pre.drop_last() =~= ns.subrange(0, i as int));
        assert(pre.last() == ns[i as int]);
        match normalize(&v[i]) {
            Ok(c) => {
                let ghost ov = cviews(out@);
                out.push(c);
                assert(cviews(out@) =~= ov.push(c@));
            },
            Err(x) => {
                proof {
                    lemma_normalize_all_prefix(ns, i + 1);
                }
                return Err(CanonError::Node(i, x));
            },
        }
        i += 1;
    }
    assert(ns.subrange(0, v@.len() as int) =~= ns);
    Ok(out)
}

/// The normal form of a graph document: `{"graph": {"nodes": [...]}}` with every
/// node in canonical form and the nodes in order.
pub fn canonicalize_graph(g: &Json) -> (r: Result<Json, CanonError>)
    ensures
        canon_view(r) == canonicalize_spec(g@),
        r matches Ok(nf) ==> crate::laws::sorted_keys(nf@),
{
    let v = match graph_nodes_of(g) {
        Ok(v) => v,
        Err(x) => return Err(x),
    };
    let cs = match normalize_nodes(v) {
        Ok(cs) => cs,
        Err(x) => return Err(x),
    };
    let sorted = sort_nodes(cs);
    let mut arr: Vec<Json> = Vec::new();
    let mut i: usize = 0;
    while i < sorted.len()
        invariant
            i <= sorted@.len(),
            arr@.len() == i,
            forall|k: int| 0 <= k < i ==> #[trigger] jv(arr@[k]) == node_json(sorted@[k]@),
        decreases sorted@.len() - i,
    {
        arr.push(node_to_json(&sorted[i]));
        i += 1;
    }
    let ghost sv = cviews(sorted@);
    proof {
        lemma_jv_arr(arr@);
        assert(jv_arr(arr@) =~= sv.map_values(|n: CNode| node_json(n)));
    }
    let mut inner: Vec<(String, Json)> = Vec::new();
    let ghost arr_v = jv(Json::Arr(arr));
    assert(arr_v == JVal::Arr(sv.map_values(|n: CNode| node_json(n))));
    inner.push((text("nodes"), Json::Arr(arr)));
    proof {
        lemma_jv_obj(inner@);
        assert(jv_obj(inner@) =~= seq![("nodes"@, arr_v)]);
    }
    let ghost inner_v = jv(Json::Obj(inner));
    let mut outer: Vec<(String, Json)> = Vec::new();
    outer.push((text("graph"), Json::Obj(inner)));
    proof {
        lemma_jv_obj(outer@);
        assert(jv_obj(outer@)[0] == ("graph"@, inner_v));
        crate::laws::lemma_graph_json_sorted(sv);
        assert(jv_obj(outer@) =~= seq![
            (
                "graph"@,
                JVal::Obj(seq![("nodes"@, JVal::Arr(sv.map_values(|n: CNode| node_json(n))))]),
            ),
        ]);
    }
    Ok(Json::Obj(outer))
}

} // verus!
