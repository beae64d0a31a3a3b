//! The encoder and decoder: one byte per character through a code mapping,
//! and back through the inverse mapping.

use vstd::prelude::*;
use crate::errors::CodecError;
use crate::mapping::{CodeMapping, ReverseMapping, lemma_invert_entry, lemma_invert_value};

verus! {

/// The byte sequence a character sequence encodes to under mapping `m`,
/// assuming every character is bound.
pub open spec fn encode_spec(s: Seq<char>, m: Map<char, u8>) -> Seq<u8> {
    Seq::new(s.len(), |i: int| m[s[i]])
}

/// The character sequence a byte sequence decodes to under reverse mapping
/// `rm`, assuming every byte is bound.
pub open spec fn decode_spec(data: Seq<u8>, rm: Map<u8, char>) -> Seq<char> {
    Seq::new(data.len(), |i: int| rm[data[i]])
}

/// Relies on `String::push`: appends the given character at the end of the
/// string and changes nothing else.
#[verifier::external_body]
fn push_char(text: &mut String, c: char)
    ensures
        final(text)@ == old(text)@.push(c),
{
    text.push(c)
}

/// Applies the code mapping to each character of `input`, in order.
/// Succeeds exactly when every character of `input` is bound by the
/// mapping — as every character is under the mapping built from the text's
/// own frequency table — and then returns one byte per input character.
/// An unbound character is a contract violation between caller and
/// mapping; it fails the whole encode rather than substituting a default.
#[verifier::loop_isolation(false)]
pub fn encode(input: &str, mapping: &CodeMapping) -> (r: Result<Vec<u8>, CodecError>)
    requires
        mapping.wf(),
    ensures
        r is Ok <==> (forall|i: int|
            0 <= i < input@.len() ==> mapping@.dom().contains(#[trigger] input@[i])),
        r matches Ok(bytes) ==> bytes@ == encode_spec(input@, mapping@) && bytes@.len()
            == input@.len(),
        r is Err ==> r == Err::<Vec<u8>, CodecError>(CodecError::UnmappedSymbol),
{
    let n = input.unicode_len();
    let mut bytes: Vec<u8> = Vec::new();
    let mut i: usize = 0;
    while i < n
        invariant
            i <= n,
            bytes@.len() == i,
            forall|j: int| 0 <= j < i ==> mapping@.dom().contains(#[trigger] input@[j]),
            forall|j: int| 0 <= j < i ==> bytes@[j] == mapping@[input@[j]],
        decreases n - i,
    {
        let c = input.get_char(i);
        match mapping.get(c) {
            Some(code) => {
                bytes.push(code);
            },
            None => {
                return Err(CodecError::UnmappedSymbol);
            },
        }
        i += 1;
    }
    proof {
        assert(bytes@ =~= encode_spec(input@, mapping@));
    }
    Ok(bytes)
}

/// Decodes each byte of `data`, in order, through the reverse mapping.
/// Succeeds exactly when every byte is bound; an unbound byte fails the
/// whole decode with `InvalidByte` carrying the first such byte, and no
/// partial result is returned.
#[verifier::loop_isolation(false)]
pub fn decompress(data: &[u8], reverse_map: &ReverseMapping) -> (r: Result<String, CodecError>)
    requires
        reverse_map.wf(),
    ensures
        r is Ok <==> (forall|i: int|
            0 <= i < data@.len() ==> reverse_map@.dom().contains(#[trigger] data@[i])),
        r matches Ok(text) ==> text@ == decode_spec(data@, reverse_map@) && text@.len()
            == data@.len(),
        r matches Err(e) ==> exists|i: int|
            0 <= i < data@.len() && !reverse_map@.dom().contains(#[trigger] data@[i]) && (
            forall|j: int| 0 <= j < i ==> reverse_map@.dom().contains(#[trigger] data@[j]))
                && e == CodecError::InvalidByte(data@[i]),
{
    let n = data.len();
    let mut text = String::new();
    let mut i: usize = 0;
    while i < n
        invariant
            i <= n,
            text@.len() == i,
            forall|j: int| 0 <= j < i ==> reverse_map@.dom().contains(#[trigger] data@[j]),
            forall|j: int| 0 <= j < i ==> text@[j] == reverse_map@[data@[j]],
        decreases n - i,
    {
        let b = data[i];
        match reverse_map.get(b) {
            Some(c) => {
                push_char(&mut text, c);
            },
            None => {
                return Err(CodecError::InvalidByte(b));
            },
        }
        i += 1;
    }
    proof {
        assert(text@ =~= decode_spec(data@, reverse_map@));
    }
    Ok(text)
}

/// Round-trip law: when every character of a text is bound by an injective
/// code mapping — as the mapping built from the text's own frequency table
/// binds them — every encoded byte is bound by the inverse mapping, and
/// decoding the encoded bytes through it gives the text back exactly.
pub proof fn lemma_round_trip(s: Seq<char>, m: Map<char, u8>)
    requires
        m.is_injective(),
        forall|i: int| 0 <= i < s.len() ==> m.dom().contains(#[trigger] s[i]),
    ensures
        forall|i: int|
            0 <= i < encode_spec(s, m).len() ==> m.invert().dom().contains(
                #[trigger] encode_spec(s, m)[i]),
        decode_spec(encode_spec(s, m), m.invert()) == s,
{
    let e = encode_spec(s, m);
    assert forall|i: int| 0 <= i < e.len() implies m.invert().dom().contains(
        #[trigger] e[i]) by {
        lemma_invert_entry(m, s[i]);
    }
    assert forall|i: int| 0 <= i < e.len() implies decode_spec(e, m.invert())[i] == s[i] by {
        lemma_invert_entry(m, s[i]);
    }
    assert(decode_spec(e, m.invert()) =~= s);
}

/// Re-encoding law: bytes that all decode through the inverse mapping give
/// a text whose characters are all bound by the code mapping, and encoding
/// that text reproduces the original bytes exactly.
pub proof fn lemma_re_encode(data: Seq<u8>, m: Map<char, u8>)
    requires
        forall|i: int| 0 <= i < data.len() ==> m.invert().dom().contains(#[trigger] data[i]),
    ensures
        forall|i: int|
            0 <= i < data.len() ==> m.dom().contains(
                #[trigger] decode_spec(data, m.invert())[i]),
        encode_spec(decode_spec(data, m.invert()), m) == data,
{
    let t = decode_spec(data, m.invert());
    assert forall|i: int| 0 <= i < data.len() implies m.dom().contains(#[trigger] t[i]) && m[t[i]]
        == data[i] by {
        lemma_invert_value(m, data[i]);
    }
    assert(encode_spec(t, m) =~= data);
}

} // verus!

