//! Content addressing: the NF-ID of a graph.
use vstd::prelude::*;
use sha2::Digest;
use crate::canon::{canonicalize_graph, canonicalize_spec, CErr, CanonError};
use crate::encode::{enc, encode, hex_digit};
use crate::json::{JVal, Json};

verus! {

/// The SHA-256 digest of the UTF-8 bytes of a text.
pub uninterp spec fn sha256_utf8(s: Seq<char>) -> Seq<u8>;

/// Two lowercase hexadecimal digits per byte, high half first.
pub open spec fn hex_text(b: Seq<u8>) -> Seq<char>
    decreases b.len(),
{
    if b.len() == 0 {
        Seq::empty()
    } else {
        hex_text(b.drop_last()) + seq![
            hex_digit((b.last() / 16) as nat),
            hex_digit((b.last() % 16) as nat),
        ]
    }
}

/// Relies on `sha2::Sha256::digest`: the 32-byte SHA-256 digest of the text's
/// UTF-8 bytes.
#[verifier::external_body]
fn sha256_of_text(s: &str) -> (r: Vec<u8>)
    ensures
        r@ == sha256_utf8(s@),
        r@.len() == 32,
{
    sha2::Sha256::digest(s.as_bytes()).to_vec()
}

/// Relies on `hex::encode`: each byte as two lowercase hexadecimal digits, high
/// half first.
#[verifier::external_body]
fn hex_lower(b: &[u8]) -> (r: String)
    ensures
        r@ == hex_text(b@),
{
    hex::encode(b)
}

pub proof fn lemma_hex_text_len(b: Seq<u8>)
    ensures
        hex_text(b).len() == 2 * b.len(),
    decreases b.len(),
{
    if b.len() > 0 {
        lemma_hex_text_len(b.drop_last());
    }
}

/// The NF-ID of a normal form: the hex digest of its compact JSON text.
pub open spec fn nf_id_of(nf: JVal) -> Seq<char> {
    hex_text(sha256_utf8(enc(nf)))
}

/// The NF-ID of a graph document, or why it has no normal form.
pub open spec fn nf_id_spec(g: JVal) -> Result<Seq<char>, CErr> {
    match canonicalize_spec(g) {
        Ok(nf) => Ok(nf_id_of(nf)),
        Err(x) => Err(x),
    }
}

/// The NF-ID of the normal form `nf`.
pub fn nf_id_of_nf(nf: &Json) -> (r: String)
    ensures
        r@ == nf_id_of(nf@),
        r@.len() == 64,
{
    let text = encode(nf);
    let digest = sha256_of_text(text.as_str());
    let r = hex_lower(digest.as_slice());
    proof {
        lemma_hex_text_len(digest@);
    }
    r
}

/// The NF-ID of a graph document: 64 lowercase hexadecimal digits.
pub fn nf_id_hex(g: &Json) -> (r: Result<String, CanonError>)
    ensures
        match r {
            Ok(id) => nf_id_spec(g@) == Ok::<Seq<char>, CErr>(id@) && id@.len() == 64,
            Err(x) => nf_id_spec(g@) == Err::<Seq<char>, CErr>(x@),
        },
{
    match canonicalize_graph(g) {
        Ok(nf) => Ok(nf_id_of_nf(&nf)),
        Err(x) => Err(x),
    }
}

/// The normal form of a graph document; the same as `canonicalize_graph`.
pub fn strict_nf(input: &Json) -> (r: Result<Json, CanonError>)
    ensures
        crate::canon::canon_view(r) == canonicalize_spec(input@),
{
    canonicalize_graph(input)
}

/// The NF-ID of a graph document; the same as `nf_id_hex`.
pub fn strict_nf_hex(input: &Json) -> (r: Result<String, CanonError>)
    ensures
        match r {
            Ok(id) => nf_id_spec(input@) == Ok::<Seq<char>, CErr>(id@) && id@.len() == 64,
            Err(x) => nf_id_spec(input@) == Err::<Seq<char>, CErr>(x@),
        },
{
    nf_id_hex(input)
}

/// The NF-ID depends on the document alone: equal documents, in any two calls,
/// have equal NF-IDs, or fail alike.
pub proof fn law_nf_id_deterministic(g1: JVal, g2: JVal)
    requires
        g1 == g2,
    ensures
        nf_id_spec(g1) == nf_id_spec(g2),
{
}

} // verus!
