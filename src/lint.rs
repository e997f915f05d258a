//! Safety rules over a graph document: edge padding (R7), anti-aliasing (R8)
//! and the forbidden Align-to-amplitude edge (R9).
use vstd::prelude::*;
use vstd::string::{StrSliceExecFns, StringExecFns};
use crate::json::{jv, jv_arr, lemma_jv_arr, lookup, obj_get, JVal, Json};
use crate::text::{chars_of, lower_seq, lower_vec, str_eq, str_eq_str};

verus! {

/// One finding: a rule code and a message.
pub struct LintIssue {
    pub code: String,
    pub message: String,
}

/// The findings of a rule, in the order they were found; empty means pass.
pub struct LintReport {
    pub issues: Vec<LintIssue>,
}

pub open spec fn issue_views(s: Seq<LintIssue>) -> Seq<(Seq<char>, Seq<char>)> {
    s.map_values(|i: LintIssue| (i.code@, i.message@))
}

impl View for LintReport {
    type V = Seq<(Seq<char>, Seq<char>)>;

    open spec fn view(&self) -> Seq<(Seq<char>, Seq<char>)> {
        issue_views(self.issues@)
    }
}

impl Default for LintReport {
    fn default() -> (r: LintReport)
        ensures
            r@ == Seq::<(Seq<char>, Seq<char>)>::empty(),
    {
        LintReport::new()
    }
}

impl LintReport {
    pub fn new() -> (r: LintReport)
        ensures
            r@ == Seq::<(Seq<char>, Seq<char>)>::empty(),
    {
        let r = LintReport { issues: Vec::new() };
        assert(r@ =~= Seq::<(Seq<char>, Seq<char>)>::empty());
        r
    }

    /// Adds a finding at the end.
    pub fn push(&mut self, code: &str, msg: String)
        ensures
            final(self)@ == old(self)@.push((code@, msg@)),
    {
        let ghost before = self@;
        self.issues.push(LintIssue { code: code.to_owned(), message: msg });
        assert(self@ =~= before.push((code@, msg@)));
    }

    /// No finding.
    pub fn ok(&self) -> (r: bool)
        ensures
            r == (self@.len() == 0),
    {
        self.issues.len() == 0
    }
}

pub open spec fn str_of(v: Option<JVal>) -> Option<Seq<char>> {
    match v {
        Some(JVal::Str(s)) => Some(s),
        _ => None,
    }
}

/// The value under `k` in an object, or nothing for any other value.
pub open spec fn field(v: JVal, k: Seq<char>) -> Option<JVal> {
    match v {
        JVal::Obj(e) => lookup(e, k),
        _ => None,
    }
}

pub open spec fn field_or_null(v: JVal, k: Seq<char>) -> JVal {
    match field(v, k) {
        Some(x) => x,
        None => JVal::Null,
    }
}

pub open spec fn node_ok(n: JVal) -> bool {
    str_of(field(n, "id"@)) is Some && str_of(field(n, "op"@)) is Some
}

pub open spec fn edge_ok(e: JVal) -> bool {
    str_of(field(e, "from"@)) is Some && str_of(field(e, "to"@)) is Some
}

/// The graph part of a document, where it is an object.
pub open spec fn graph_of(m: JVal) -> Option<JVal> {
    match field(m, "graph"@) {
        Some(JVal::Obj(g)) => Some(JVal::Obj(g)),
        _ => None,
    }
}

/// The nodes of a graph: an array of objects with a text `id` and `op` each.
pub open spec fn nodes_of(g: JVal) -> Option<Seq<JVal>> {
    match field(g, "nodes"@) {
        Some(JVal::Arr(ns)) => if forall|i: int| 0 <= i < ns.len() ==> #[trigger] node_ok(ns[i]) {
            Some(ns)
        } else {
            None
        },
        _ => None,
    }
}

/// The edges of a graph: none when absent, else an array of objects with a
/// text `from` and `to` each.
pub open spec fn edges_of(g: JVal) -> Option<Seq<JVal>> {
    match field(g, "edges"@) {
        None => Some(Seq::empty()),
        Some(JVal::Arr(es)) => if forall|i: int| 0 <= i < es.len() ==> #[trigger] edge_ok(es[i]) {
            Some(es)
        } else {
            None
        },
        _ => None,
    }
}

/// A document whose graph the rules can read.
pub open spec fn readable(m: JVal) -> bool {
    match graph_of(m) {
        Some(g) => nodes_of(g) is Some && edges_of(g) is Some,
        None => false,
    }
}

pub open spec fn node_id(n: JVal) -> Seq<char> {
    str_of(field(n, "id"@))->0
}

pub open spec fn node_op(n: JVal) -> Seq<char> {
    str_of(field(n, "op"@))->0
}

/// A parameter of a node, from its `params` object.
pub open spec fn param(n: JVal, k: Seq<char>) -> Option<JVal> {
    field(field_or_null(n, "params"@), k)
}

/// A passport of a graph, from its `passports` object.
pub open spec fn passport(g: JVal, k: Seq<char>) -> Option<JVal> {
    field(field_or_null(g, "passports"@), k)
}

/// The edge mode of a window node; reflect where it names none.
pub open spec fn edge_mode(n: JVal) -> Seq<char> {
    match str_of(param(n, "edge"@)) {
        Some(s) => s,
        None => "reflect"@,
    }
}

/// A spelling of zero padding, in any letter case.
pub open spec fn is_zero_pad(e: Seq<char>) -> bool {
    let l = lower_seq(e);
    l == "zero"@ || l == "zero-pad"@ || l == "zeros"@ || l == "zeropad"@ || l == "zero_pad"@
}

pub open spec fn stationary(g: JVal) -> bool {
    passport(g, "Sta"@) == Some(JVal::Bool(true))
}

pub open spec fn no_graph_message() -> Seq<char> {
    "manifest.graph missing or malformed"@
}

pub open spec fn r7_edge_message(id: Seq<char>, e: Seq<char>) -> Seq<char> {
    "W node '"@ + id + "' uses forbidden edge padding '"@ + e + "'"@
}

pub open spec fn r7_guard_message(id: Seq<char>, e: Seq<char>) -> Seq<char> {
    "W node '"@ + id + "' requires Sta or edge reflect/Toeplitz; got edge='"@ + e + "'"@
}

/// The R7 findings of one node.
pub open spec fn r7_node(n: JVal, sta: bool) -> Seq<(Seq<char>, Seq<char>)> {
    if node_op(n) == "W"@ {
        let e = edge_mode(n);
        (if is_zero_pad(e) {
            seq![("R7/edge"@, r7_edge_message(node_id(n), e))]
        } else {
            Seq::empty()
        }) + (if !(sta || e == "reflect"@ || lower_seq(e) == "toeplitz"@) {
            seq![("R7/guard"@, r7_guard_message(node_id(n), e))]
        } else {
            Seq::empty()
        })
    } else {
        Seq::empty()
    }
}

pub open spec fn r7_nodes(ns: Seq<JVal>, sta: bool) -> Seq<(Seq<char>, Seq<char>)>
    decreases ns.len(),
{
    if ns.len() == 0 {
        Seq::empty()
    } else {
        r7_nodes(ns.drop_last(), sta) + r7_node(ns.last(), sta)
    }
}

/// R7: every window node pads its edges by reflection or Toeplitz extension,
/// never with zeros; another mode needs a stationarity passport.
pub open spec fn lint_r7_spec(m: JVal) -> Seq<(Seq<char>, Seq<char>)> {
    if readable(m) {
        let g = graph_of(m)->0;
        r7_nodes(nodes_of(g)->0, stationary(g))
    } else {
        seq![("R7/no-graph"@, no_graph_message())]
    }
}

pub open spec fn r8_passport_message() -> Seq<char> {
    "GB-R8 passports required: PR_ε and MM(d)"@
}

pub open spec fn r8_aa_message(id: Seq<char>) -> Seq<char> {
    "D node '"@ + id + "' must set aa=true or name an anti-alias filter before downsample"@
}

/// An anti-alias stage is declared: the flag `true`, or a filter's name.
pub open spec fn aa_declared(v: Option<JVal>) -> bool {
    match v {
        Some(JVal::Bool(b)) => b,
        Some(JVal::Str(s)) => s.len() > 0,
        _ => false,
    }
}

pub open spec fn has_eps_passport(g: JVal) -> bool {
    passport(g, "PR_epsilon"@) is Some || passport(g, "PR_ε"@) is Some
}

pub open spec fn has_mod_passport(g: JVal) -> bool {
    passport(g, "MM_d"@) is Some || passport(g, "MM"@) is Some
}

/// The R8 findings of one node.
pub open spec fn r8_node(n: JVal, passports: bool) -> Seq<(Seq<char>, Seq<char>)> {
    if node_op(n) == "D"@ {
        (if !aa_declared(param(n, "aa"@)) {
            seq![("R8/aa"@, r8_aa_message(node_id(n)))]
        } else {
            Seq::empty()
        }) + (if !passports {
            seq![("R8/passport"@, r8_passport_message())]
        } else {
            Seq::empty()
        })
    } else {
        Seq::empty()
    }
}

pub open spec fn r8_nodes(ns: Seq<JVal>, passports: bool) -> Seq<(Seq<char>, Seq<char>)>
    decreases ns.len(),
{
    if ns.len() == 0 {
        Seq::empty()
    } else {
        r8_nodes(ns.drop_last(), passports) + r8_node(ns.last(), passports)
    }
}

/// R8: every downsample node declares an anti-alias stage (`aa` true or a
/// filter's name), and the graph carries both an epsilon-perturbation and a
/// modulus-of-continuity passport.
pub open spec fn lint_r8_spec(m: JVal) -> Seq<(Seq<char>, Seq<char>)> {
    if readable(m) {
        let g = graph_of(m)->0;
        r8_nodes(nodes_of(g)->0, has_eps_passport(g) && has_mod_passport(g))
    } else {
        seq![("R8/no-graph"@, no_graph_message())]
    }
}

/// The operator of the last node with identifier `id`.
pub open spec fn op_by_id(ns: Seq<JVal>, id: Seq<char>) -> Option<Seq<char>>
    decreases ns.len(),
{
    if ns.len() == 0 {
        None
    } else if node_id(ns.last()) == id {
        Some(node_op(ns.last()))
    } else {
        op_by_id(ns.drop_last(), id)
    }
}

pub open spec fn r9_message(from: Seq<char>, to: Seq<char>) -> Seq<char> {
    "Forbidden pattern A∘Align via edge "@ + from + " -> "@ + to
}

pub open spec fn edge_from(e: JVal) -> Seq<char> {
    str_of(field(e, "from"@))->0
}

pub open spec fn edge_to(e: JVal) -> Seq<char> {
    str_of(field(e, "to"@))->0
}

/// The R9 finding of one edge.
pub open spec fn r9_edge(ns: Seq<JVal>, e: JVal) -> Seq<(Seq<char>, Seq<char>)> {
    if op_by_id(ns, edge_from(e)) == Some("Align"@) && op_by_id(ns, edge_to(e)) == Some("A"@) {
        seq![("R9/A∘Align"@, r9_message(edge_from(e), edge_to(e)))]
    } else {
        Seq::empty()
    }
}

pub open spec fn r9_edges(ns: Seq<JVal>, es: Seq<JVal>) -> Seq<(Seq<char>, Seq<char>)>
    decreases es.len(),
{
    if es.len() == 0 {
        Seq::empty()
    } else {
        r9_edges(ns, es.drop_last()) + r9_edge(ns, es.last())
    }
}

/// R9: no edge leads from an alignment node to an amplitude node.
pub open spec fn lint_r9_spec(m: JVal) -> Seq<(Seq<char>, Seq<char>)> {
    if readable(m) {
        let g = graph_of(m)->0;
        r9_edges(nodes_of(g)->0, edges_of(g)->0)
    } else {
        seq![("R9/no-graph"@, no_graph_message())]
    }
}

pub(crate) fn field_of<'a>(v: &'a Json, k: &str) -> (r: Option<&'a Json>)
    ensures
        match r {
            Some(x) => field(v@, k@) == Some(x@),
            None => field(v@, k@) is None,
        },
{
    match v {
        Json::Obj(e) => obj_get(e, k),
        _ => None,
    }
}

fn str_field<'a>(v: &'a Json, k: &str) -> (r: Option<&'a String>)
    ensures
        match r {
            Some(x) => str_of(field(v@, k@)) == Some(x@),
            None => str_of(field(v@, k@)) is None,
        },
{
    match field_of(v, k) {
        Some(Json::Str(s)) => Some(s),
        _ => None,
    }
}

fn param_of<'a>(n: &'a Json, k: &str) -> (r: Option<&'a Json>)
    ensures
        match r {
            Some(x) => param(n@, k@) == Some(x@),
            None => param(n@, k@) is None,
        },
{
    match field_of(n, "params") {
        Some(p) => field_of(p, k),
        None => None,
    }
}

fn passport_of<'a>(g: &'a Json, k: &str) -> (r: Option<&'a Json>)
    ensures
        match r {
            Some(x) => passport(g@, k@) == Some(x@),
            None => passport(g@, k@) is None,
        },
{
    match field_of(g, "passports") {
        Some(p) => field_of(p, k),
        None => None,
    }
}

pub open spec fn item_ok(x: JVal, edges: bool) -> bool {
    if edges {
        edge_ok(x)
    } else {
        node_ok(x)
    }
}

fn all_ok(v: &Vec<Json>, edges: bool) -> (r: bool)
    ensures
        r == forall|i: int|
            0 <= i < jv_arr(v@).len() ==> #[trigger] item_ok(jv_arr(v@)[i], edges),
{
    proof {
        lemma_jv_arr(v@);
    }
    let ghost s = jv_arr(v@);
    let mut i: usize = 0;
    while i < v.len()
        invariant
            s == jv_arr(v@),
            s.len() == v@.len(),
            forall|k: int| 0 <= k < v@.len() ==> #[trigger] s[k] == jv(v@[k]),
            i <= v@.len(),
            forall|k: int|
                0 <= k < i ==> #[trigger] item_ok(s[k], edges),
        decreases v@.len() - i,
    {
        let good = if edges {
            str_field(&v[i], "from").is_some() && str_field(&v[i], "to").is_some()
        } else {
            str_field(&v[i], "id").is_some() && str_field(&v[i], "op").is_some()
        };
        if !good {
            assert(!item_ok(s[i as int], edges));
            return false;
        }
        i += 1;
    }
    true
}

/// The graph, its nodes and its edges, where the rules can read them.
fn read_graph(m: &Json) -> (r: Option<(&Json, &Vec<Json>, Option<&Vec<Json>>)>)
    ensures
        match r {
            Some(t) => readable(m@) && graph_of(m@) == Some(t.0@) && nodes_of(t.0@) == Some(
                jv_arr(t.1@),
            ) && edges_of(t.0@) == Some(
                match t.2 {
                    Some(es) => jv_arr(es@),
                    None => Seq::<JVal>::empty(),
                },
            ),
            None => !readable(m@),
        },
{
    let g = match field_of(m, "graph") {
        Some(g) => g,
        None => return None,
    };
    match g {
        Json::Obj(_) => {},
        _ => return None,
    }
    let ns = match field_of(g, "nodes") {
        Some(Json::Arr(ns)) => ns,
        _ => return None,
    };
    if !all_ok(ns, false) {
        proof {
            let i = choose|i: int| 0 <= i < jv_arr(ns@).len() && !item_ok(jv_arr(ns@)[i], false);
            assert(!node_ok(jv_arr(ns@)[i]));
        }
        return None;
    }
    assert forall|i: int| 0 <= i < jv_arr(ns@).len() implies #[trigger] node_ok(jv_arr(ns@)[i]) by {
        assert(item_ok(jv_arr(ns@)[i], false));
    }
    match field_of(g, "edges") {
        None => Some((g, ns, None)),
        Some(Json::Arr(es)) => if all_ok(es, true) {
            assert forall|i: int| 0 <= i < jv_arr(es@).len() implies #[trigger] edge_ok(jv_arr(es@)[i]) by {
                assert(item_ok(jv_arr(es@)[i], true));
            }
            Some((g, ns, Some(es)))
        } else {
            proof {
                let i = choose|i: int| 0 <= i < jv_arr(es@).len() && !item_ok(jv_arr(es@)[i], true);
                assert(!edge_ok(jv_arr(es@)[i]));
            }
            None
        },
        _ => None,
    }
}

fn no_graph(code: &str) -> (r: LintReport)
    ensures
        r@ == seq![(code@, no_graph_message())],
{
    let mut rep = LintReport::new();
    rep.push(code, "manifest.graph missing or malformed".to_owned());
    rep
}

fn join3(a: &str, b: &str, c: &str) -> (r: String)
    ensures
        r@ == a@ + b@ + c@,
{
    let mut s = a.to_owned();
    s.append(b);
    s.append(c);
    s
}

fn join5(a: &str, b: &str, c: &str, d: &str, e: &str) -> (r: String)
    ensures
        r@ == a@ + b@ + c@ + d@ + e@,
{
    let mut s = join3(a, b, c);
    s.append(d);
    s.append(e);
    s
}

/// R7 over a graph document, see `lint_r7_spec`.
pub fn lint_r7(manifest: &Json) -> (r: LintReport)
    ensures
        r@ == lint_r7_spec(manifest@),
{
    let (g, ns, _) = match read_graph(manifest) {
        Some(t) => t,
        None => return no_graph("R7/no-graph"),
    };
    let sta = match passport_of(g, "Sta") {
        Some(Json::Bool(b)) => *b,
        _ => false,
    };
    let ghost s = jv_arr(ns@);
    proof {
        lemma_jv_arr(ns@);
    }
    let mut rep = LintReport::new();
    let mut i: usize = 0;
    assert(s.subrange(0, 0) =~= Seq::<JVal>::empty());
    while i < ns.len()
        invariant
            s == jv_arr(ns@),
            s.len() == ns@.len(),
            forall|k: int| 0 <= k < ns@.len() ==> #[trigger] s[k] == jv(ns@[k]),
            forall|k: int| 0 <= k < s.len() ==> #[trigger] node_ok(s[k]),
            sta == stationary(g@),
            i <= ns@.len(),
            rep@ == r7_nodes(s.subrange(0, i as int), sta),
        decreases ns@.len() - i,
    {
        let n = &ns[i];
        let ghost before = rep@;
        assert(node_ok(s[i as int]));
        let id = str_field(n, "id").unwrap();
        let op = str_field(n, "op").unwrap();
        if str_eq_str(op.as_str(), "W") {
            let edge: &str = match param_of(n, "edge") {
                Some(Json::Str(e)) => e.as_str(),
                _ => "reflect",
            };
            assert(edge@ == edge_mode(s[i as int]));
            let ec = chars_of(edge);
            let el = lower_vec(ec.as_slice());
            let els = el.as_slice();
            if str_eq(els, "zero") || str_eq(els, "zero-pad") || str_eq(els, "zeros") || str_eq(
                els,
                "zeropad",
            ) || str_eq(els, "zero_pad") {
                rep.push(
                    "R7/edge",
                    join5("W node '", id.as_str(), "' uses forbidden edge padding '", edge, "'"),
                );
            }
            if !(sta || str_eq_str(edge, "reflect") || str_eq(el.as_slice(), "toeplitz")) {
                rep.push(
                    "R7/guard",
                    join5(
                        "W node '",
                        id.as_str(),
                        "' requires Sta or edge reflect/Toeplitz; got edge='",
                        edge,
                        "'",
                    ),
                );
            }
        }
        proof {
            let pre = s.subrange(0, i + 1);
            assert(pre.drop_last() =~= s.subrange(0, i as int));
            assert(pre.last() == s[i as int]);
            assert(rep@ =~= r7_nodes(pre, sta));
        }
        i += 1;
    }
    assert(s.subrange(0, ns@.len() as int) =~= s);
    rep
}

/// R8 over a graph document, see `lint_r8_spec`.
pub fn lint_r8(manifest: &Json) -> (r: LintReport)
    ensures
        r@ == lint_r8_spec(manifest@),
{
    let (g, ns, _) = match read_graph(manifest) {
        Some(t) => t,
        None => return no_graph("R8/no-graph"),
    };
    let pr_eps = passport_of(g, "PR_epsilon").is_some() || passport_of(g, "PR_ε").is_some();
    let mm_d = passport_of(g, "MM_d").is_some() || passport_of(g, "MM").is_some();
    let passports = pr_eps && mm_d;
    let ghost s = jv_arr(ns@);
    proof {
        lemma_jv_arr(ns@);
    }
    let mut rep = LintReport::new();
    let mut i: usize = 0;
    assert(s.subrange(0, 0) =~= Seq::<JVal>::empty());
    while i < ns.len()
        invariant
            s == jv_arr(ns@),
            s.len() == ns@.len(),
            forall|k: int| 0 <= k < ns@.len() ==> #[trigger] s[k] == jv(ns@[k]),
            forall|k: int| 0 <= k < s.len() ==> #[trigger] node_ok(s[k]),
            passports == (has_eps_passport(g@) && has_mod_passport(g@)),
            i <= ns@.len(),
            rep@ == r8_nodes(s.subrange(0, i as int), passports),
        decreases ns@.len() - i,
    {
        let n = &ns[i];
        assert(node_ok(s[i as int]));
        let id = str_field(n, "id").unwrap();
        let op = str_field(n, "op").unwrap();
        if str_eq_str(op.as_str(), "D") {
            let aa = match param_of(n, "aa") {
                Some(Json::Bool(b)) => *b,
                Some(Json::Str(f)) => f.as_str().unicode_len() > 0,
                _ => false,
            };
            if !aa {
                rep.push(
                    "R8/aa",
                    join3(
                        "D node '",
                        id.as_str(),
                        "' must set aa=true or name an anti-alias filter before downsample",
                    ),
                );
            }
            if !passports {
                rep.push("R8/passport", "GB-R8 passports required: PR_ε and MM(d)".to_owned());
            }
        }
        proof {
            let pre = s.subrange(0, i + 1);
            assert(pre.drop_last() =~= s.subrange(0, i as int));
            assert(pre.last() == s[i as int]);
            assert(rep@ =~= r8_nodes(pre, passports));
        }
        i += 1;
    }
    assert(s.subrange(0, ns@.len() as int) =~= s);
    rep
}

/// The operator of the last node with identifier `id`.
fn op_by_id_of<'a>(ns: &'a Vec<Json>, id: &String) -> (r: Option<&'a String>)
    requires
        forall|k: int| 0 <= k < jv_arr(ns@).len() ==> #[trigger] node_ok(jv_arr(ns@)[k]),
    ensures
        match r {
            Some(o) => op_by_id(jv_arr(ns@), id@) == Some(o@),
            None => op_by_id(jv_arr(ns@), id@) is None,
        },
{
    let ghost s = jv_arr(ns@);
    proof {
        lemma_jv_arr(ns@);
    }
    let mut i: usize = ns.len();
    assert(s.subrange(0, s.len() as int) =~= s);
    while i > 0
        invariant
            s == jv_arr(ns@),
            s.len() == ns@.len(),
            forall|k: int| 0 <= k < ns@.len() ==> #[trigger] s[k] == jv(ns@[k]),
            forall|k: int| 0 <= k < s.len() ==> #[trigger] node_ok(s[k]),
            i <= ns@.len(),
            op_by_id(s, id@) == op_by_id(s.subrange(0, i as int), id@),
        decreases i,
    {
        let n = &ns[i - 1];
        assert(node_ok(s[i - 1]));
        let nid = str_field(n, "id").unwrap();
        let ghost pre = s.subrange(0, i as int);
        assert(pre.drop_last() =~= s.subrange(0, i - 1));
        assert(pre.last() == s[i - 1]);
        if str_eq_str(nid.as_str(), id.as_str()) {
            return str_field(n, "op");
        }
        i -= 1;
    }
    None
}

/// R9 over a graph document, see `lint_r9_spec`.
pub fn lint_r9(manifest: &Json) -> (r: LintReport)
    ensures
        r@ == lint_r9_spec(manifest@),
{
    let (g, ns, edges) = match read_graph(manifest) {
        Some(t) => t,
        None => return no_graph("R9/no-graph"),
    };
    let mut rep = LintReport::new();
    let es = match edges {
        Some(es) => es,
        None => {
            assert(rep@ =~= r9_edges(jv_arr(ns@), Seq::<JVal>::empty()));
            return rep;
        },
    };
    let ghost sn = jv_arr(ns@);
    let ghost s = jv_arr(es@);
    proof {
        lemma_jv_arr(es@);
    }
    let mut i: usize = 0;
    assert(s.subrange(0, 0) =~= Seq::<JVal>::empty());
    while i < es.len()
        invariant
            sn == jv_arr(ns@),
            forall|k: int| 0 <= k < sn.len() ==> #[trigger] node_ok(sn[k]),
            s == jv_arr(es@),
            s.len() == es@.len(),
            forall|k: int| 0 <= k < es@.len() ==> #[trigger] s[k] == jv(es@[k]),
            forall|k: int| 0 <= k < s.len() ==> #[trigger] edge_ok(s[k]),
            i <= es@.len(),
            rep@ == r9_edges(sn, s.subrange(0, i as int)),
        decreases es@.len() - i,
    {
        let e = &es[i];
        assert(edge_ok(s[i as int]));
        let from = str_field(e, "from").unwrap();
        let to = str_field(e, "to").unwrap();
        let a = op_by_id_of(ns, from);
        let b = op_by_id_of(ns, to);
        let hit = match (a, b) {
            (Some(x), Some(y)) => str_eq_str(x.as_str(), "Align") && str_eq_str(y.as_str(), "A"),
            _ => false,
        };
        if hit {
            rep.push("R9/A∘Align", join3("Forbidden pattern A∘Align via edge ", from.as_str(), " -> ").concat(to.as_str()));
        }
        proof {
            let pre = s.subrange(0, i + 1);
            assert(pre.drop_last() =~= s.subrange(0, i as int));
            assert(pre.last() == s[i as int]);
            assert(rep@ =~= r9_edges(sn, pre));
        }
        i += 1;
    }
    assert(s.subrange(0, es@.len() as int) =~= s);
    rep
}

} // verus!
