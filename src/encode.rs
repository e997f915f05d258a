//! The compact JSON text of a value: no whitespace, entries in the order held.
use vstd::prelude::*;
use vstd::string::StringExecFns;
use crate::json::{jv, jv_arr, jv_obj, lemma_jv_arr, lemma_jv_obj, JVal, Json};
use crate::text::{chars_of, push_char};

verus! {

pub open spec fn hex_digit(d: nat) -> char {
    if d < 10 {
        ((48 + d) as u8) as char
    } else {
        ((87 + d) as u8) as char
    }
}

/// How one character stands inside a JSON string.
pub open spec fn esc_char(c: char) -> Seq<char> {
    if c == '"' {
        seq!['\\', '"']
    } else if c == '\\' {
        seq!['\\', '\\']
    } else if c == '\n' {
        seq!['\\', 'n']
    } else if c == '\r' {
        seq!['\\', 'r']
    } else if c == '\t' {
        seq!['\\', 't']
    } else if c == '\u{8}' {
        seq!['\\', 'b']
    } else if c == '\u{c}' {
        seq!['\\', 'f']
    } else if (c as u32) < 0x20 {
        seq!['\\', 'u', '0', '0', hex_digit((c as u32 / 16) as nat), hex_digit((c as u32 % 16) as nat)]
    } else {
        seq![c]
    }
}

pub open spec fn esc(s: Seq<char>) -> Seq<char>
    decreases s.len(),
{
    if s.len() == 0 {
        Seq::empty()
    } else {
        esc(s.drop_last()) + esc_char(s.last())
    }
}

pub open spec fn quote(s: Seq<char>) -> Seq<char> {
    seq!['"'] + esc(s) + seq!['"']
}

/// The compact JSON text of a value.
pub open spec fn enc(j: JVal) -> Seq<char>
    decreases j,
{
    match j {
        JVal::Null => "null"@,
        JVal::Bool(b) => if b {
            "true"@
        } else {
            "false"@
        },
        JVal::Num(t) => t,
        JVal::Str(s) => quote(s),
        JVal::Arr(xs) => seq!['['] + enc_items(xs) + seq![']'],
        JVal::Obj(es) => seq!['{'] + enc_entries(es) + seq!['}'],
    }
}

pub open spec fn enc_items(xs: Seq<JVal>) -> Seq<char>
    decreases xs,
{
    if xs.len() == 0 {
        Seq::empty()
    } else if xs.len() == 1 {
        enc(xs[0])
    } else {
        enc_items(xs.drop_last()) + seq![','] + enc(xs.last())
    }
}

pub open spec fn enc_entries(es: Seq<(Seq<char>, JVal)>) -> Seq<char>
    decreases es,
{
    if es.len() == 0 {
        Seq::empty()
    } else if es.len() == 1 {
        quote(es[0].0) + seq![':'] + enc(es[0].1)
    } else {
        enc_entries(es.drop_last()) + seq![','] + quote(es.last().0) + seq![':'] + enc(
            es.last().1,
        )
    }
}

fn hex_digit_of(d: u32) -> (r: char)
    requires
        d < 16,
    ensures
        r == hex_digit(d as nat),
{
    if d < 10 {
        ((48 + d) as u8) as char
    } else {
        ((87 + d) as u8) as char
    }
}

fn push_quoted(out: &mut String, s: &str)
    ensures
        final(out)@ == old(out)@ + quote(s@),
{
    let c = chars_of(s);
    let ghost start = out@;
    push_char(out, '"');
    let mut i: usize = 0;
    assert(c@.subrange(0, 0) =~= Seq::<char>::empty());
    while i < c.len()
        invariant
            i <= c@.len(),
            c@ == s@,
            out@ == start + seq!['"'] + esc(c@.subrange(0, i as int)),
        decreases c@.len() - i,
    {
        let ch = c[i];
        let ghost before = out@;
        if ch == '"' {
            push_char(out, '\\');
            push_char(out, '"');
        } else if ch == '\\' {
            push_char(out, '\\');
            push_char(out, '\\');
        } else if ch == '\n' {
            push_char(out, '\\');
            push_char(out, 'n');
        } else if ch == '\r' {
            push_char(out, '\\');
            push_char(out, 'r');
        } else if ch == '\t' {
            push_char(out, '\\');
            push_char(out, 't');
        } else if ch == '\u{8}' {
            push_char(out, '\\');
            push_char(out, 'b');
        } else if ch == '\u{c}' {
            push_char(out, '\\');
            push_char(out, 'f');
        } else if (ch as u32) < 0x20 {
            push_char(out, '\\');
            push_char(out, 'u');
            push_char(out, '0');
            push_char(out, '0');
            push_char(out, hex_digit_of(ch as u32 / 16));
            push_char(out, hex_digit_of(ch as u32 % 16));
        } else {
            push_char(out, ch);
        }
        proof {
            let pre = c@.subrange(0, i + 1);
            assert(pre.drop_last() =~= c@.subrange(0, i as int));
            assert(pre.last() == ch);
            assert(out@ =~= before + esc_char(ch));
            assert(esc(pre) == esc(c@.subrange(0, i as int)) + esc_char(ch));
        }
        i += 1;
    }
    push_char(out, '"');
    assert(c@.subrange(0, c@.len() as int) =~= c@);
    assert(out@ =~= start + quote(s@));
}

/// Appends the compact JSON text of `j`.
pub fn encode_into(j: &Json, out: &mut String)
    ensures
        final(out)@ == old(out)@ + enc(j@),
    decreases j,
{
    match j {
        Json::Null => out.append("null"),
        Json::Bool(b) => if *b {
            out.append("true")
        } else {
            out.append("false")
        },
        Json::Num(t) => out.append(t.as_str()),
        Json::Str(s) => push_quoted(out, s.as_str()),
        Json::Arr(v) => {
            let ghost start = out@;
            proof {
                lemma_jv_arr(v@);
            }
            push_char(out, '[');
            let mut i: usize = 0;
            assert(jv_arr(v@).subrange(0, 0) =~= Seq::<JVal>::empty());
            while i < v.len()
                invariant
                    *j == Json::Arr(*v),
                    i <= v@.len(),
                    jv_arr(v@).len() == v@.len(),
                    forall|k: int| 0 <= k < v@.len() ==> #[trigger] jv_arr(v@)[k] == jv(v@[k]),
                    out@ == start + seq!['['] + enc_items(jv_arr(v@).subrange(0, i as int)),
                decreases v@.len() - i,
            {
                let ghost before = out@;
                if i > 0 {
                    push_char(out, ',');
                }
                proof {
                    broadcast use vstd::std_specs::vec::axiom_vec_index_decreases;

                    assert(decreases_to!(*j => (*j)->Arr_0));
                    assert(decreases_to!(*j => v[i as int]));
                }
                encode_into(&v[i], out);
                proof {
                    let pre = jv_arr(v@).subrange(0, i + 1);
                    assert(pre.drop_last() =~= jv_arr(v@).subrange(0, i as int));
                    assert(pre.last() == jv(v@[i as int]));
                    if i == 0 {
                        assert(pre[0] == jv(v@[0]));
                        assert(out@ =~= start + seq!['['] + enc_items(pre));
                    } else {
                        assert(out@ =~= start + seq!['['] + enc_items(pre));
                    }
                }
                i += 1;
            }
            push_char(out, ']');
            assert(jv_arr(v@).subrange(0, v@.len() as int) =~= jv_arr(v@));
            assert(out@ =~= start + enc(j@));
        },
        Json::Obj(v) => {
            let ghost start = out@;
            proof {
                lemma_jv_obj(v@);
            }
            push_char(out, '{');
            let mut i: usize = 0;
            assert(jv_obj(v@).subrange(0, 0) =~= Seq::<(Seq<char>, JVal)>::empty());
            while i < v.len()
                invariant
                    *j == Json::Obj(*v),
                    i <= v@.len(),
                    jv_obj(v@).len() == v@.len(),
                    forall|k: int|
                        0 <= k < v@.len() ==> #[trigger] jv_obj(v@)[k] == (v@[k].0@, jv(v@[k].1)),
                    out@ == start + seq!['{'] + enc_entries(jv_obj(v@).subrange(0, i as int)),
                decreases v@.len() - i,
            {
                if i > 0 {
                    push_char(out, ',');
                }
                push_quoted(out, v[i].0.as_str());
                push_char(out, ':');
                proof {
                    broadcast use vstd::std_specs::vec::axiom_vec_index_decreases;

                    assert(decreases_to!(*j => (*j)->Obj_0));
                    assert(decreases_to!(*j => v[i as int]));
                    assert(decreases_to!(*j => v[i as int].1));
                }
                encode_into(&v[i].1, out);
                proof {
                    let pre = jv_obj(v@).subrange(0, i + 1);
                    assert(pre.drop_last() =~= jv_obj(v@).subrange(0, i as int));
                    assert(pre.last() == (v@[i as int].0@, jv(v@[i as int].1)));
                    if i == 0 {
                        assert(pre[0] == (v@[0].0@, jv(v@[0].1)));
                    }
                    assert(out@ =~= start + seq!['{'] + enc_entries(pre));
                }
                i += 1;
            }
            push_char(out, '}');
            assert(jv_obj(v@).subrange(0, v@.len() as int) =~= jv_obj(v@));
            assert(out@ =~= start + enc(j@));
        },
    }
}

/// The compact JSON text of `j`.
pub fn encode(j: &Json) -> (r: String)
    ensures
        r@ == enc(j@),
{
    let mut s = String::new();
    encode_into(j, &mut s);
    assert(s@ =~= enc(j@));
    s
}

} // verus!
