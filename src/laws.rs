use vstd::prelude::*;
use crate::decode::{decode_at, decode_seq, decode_spec, is_list_kind, MAX_DEPTH};
use crate::encode::{encode_item, encode_items, header};
use crate::prefix::{
    be_bytes, kind_of, lemma_be_bytes_len, lemma_be_round_trip, lemma_pow256_8, length_of_length,
    prefix_of, Kind,
};
use crate::prefix::DecodeError;
use crate::types::Item;

verus! {

/// How deeply lists are nested in `x`: zero for a byte string.
pub open spec fn nesting(x: Item) -> nat
    decreases x,
{
    match x {
        Item::Bytes(_) => 0,
        Item::List(l) => 1 + max_nesting(l),
    }
}

/// The greatest nesting among the items of `l`, zero for none.
pub open spec fn max_nesting(l: Seq<Item>) -> nat
    decreases l,
{
    if l.len() == 0 {
        0
    } else {
        let a = nesting(l[0]);
        let b = max_nesting(l.subrange(1, l.len() as int));
        if a >= b { a } else { b }
    }
}

/// A header of `len` payload bytes, read back from the front of a buffer that
/// holds the payload after it.
proof fn lemma_header_read(len: nat, offset: u8, rest: Seq<u8>)
    requires
        offset == 0x80 || offset == 0xc0,
        len < 0x1_0000_0000_0000_0000,
        rest.len() >= len,
    ensures
        prefix_of(header(len, offset) + rest) matches Ok((h, n, k)) && h == header(len, offset).len()
            && n == len && is_list_kind(k) == (offset == 0xc0) && k != Kind::SingleByte,
{
    let b = header(len, offset) + rest;
    if len < 56 {
        assert(b[0] == (offset + len) as u8);
    } else {
        lemma_pow256_8();
        lemma_be_bytes_len(len, 8);
        lemma_be_round_trip(len);
        let ll = be_bytes(len).len();
        assert(b[0] == (offset + 55 + ll) as u8);
        assert(length_of_length(b[0]) == ll);
        assert(b.subrange(1, 1 + ll as int) =~= be_bytes(len));
    }
}

/// An encoded item is read back whole from the front of any buffer that
/// starts with its encoding.
proof fn lemma_decode_item(x: Item, suffix: Seq<u8>, depth: nat)
    requires
        nesting(x) <= depth,
        encode_item(x).len() < 0x1_0000_0000_0000_0000,
    ensures
        prefix_of(encode_item(x) + suffix) matches Ok((h, n, k)) && h + n == encode_item(x).len(),
        decode_at(encode_item(x) + suffix, depth) == Ok::<Item, DecodeError>(x),
    decreases x,
{
    let b = encode_item(x) + suffix;
    match x {
        Item::Bytes(s) => {
            if s.len() == 1 && s[0] <= 0x7f {
                assert(kind_of(b[0]) == Kind::SingleByte);
                assert(b.subrange(0, 1) =~= s);
            } else {
                lemma_header_read(s.len(), 0x80, s + suffix);
                assert(b =~= header(s.len(), 0x80) + (s + suffix));
                let h = header(s.len(), 0x80).len();
                assert(b.subrange(h as int, (h + s.len()) as int) =~= s);
            }
        },
        Item::List(l) => {
            let inner = encode_items(l);
            lemma_header_read(inner.len(), 0xc0, inner + suffix);
            assert(b =~= header(inner.len(), 0xc0) + (inner + suffix));
            let h = header(inner.len(), 0xc0).len();
            assert(b.subrange(h as int, (h + inner.len()) as int) =~= inner);
            lemma_decode_items(l, (depth - 1) as nat);
        },
    }
}

/// Encodings laid one after the other are read back as the same items.
proof fn lemma_decode_items(l: Seq<Item>, depth: nat)
    requires
        max_nesting(l) <= depth,
        encode_items(l).len() < 0x1_0000_0000_0000_0000,
    ensures
        decode_seq(encode_items(l), depth) == Ok::<Seq<Item>, DecodeError>(l),
    decreases l,
{
    if l.len() > 0 {
        let t = l.subrange(1, l.len() as int);
        let p = encode_items(l);
        lemma_decode_item(l[0], encode_items(t), depth);
        lemma_decode_items(t, depth);
        let m = encode_item(l[0]).len();
        assert(p.subrange(m as int, p.len() as int) =~= encode_items(t));
        assert(seq![l[0]] + t =~= l);
    } else {
        assert(encode_items(l) =~= Seq::<u8>::empty());
        assert(l =~= Seq::<Item>::empty());
    }
}

/// Round trip: decoding the encoding of an item gives the item back, for
/// every item that fits in memory and nests no deeper than the decoder
/// accepts.
pub proof fn round_trip(x: Item)
    requires
        nesting(x) <= MAX_DEPTH,
        encode_item(x).len() <= usize::MAX,
    ensures
        decode_spec(encode_item(x)) == Ok::<Item, DecodeError>(x),
{
    lemma_decode_item(x, Seq::empty(), MAX_DEPTH as nat);
    assert(encode_item(x) + Seq::<u8>::empty() =~= encode_item(x));
}

/// Canonical form: a buffer that the encoder produced decodes to an item
/// whose encoding is that very buffer.
pub proof fn canonical_form(x: Item, b: Seq<u8>)
    requires
        nesting(x) <= MAX_DEPTH,
        encode_item(x).len() <= usize::MAX,
        b == encode_item(x),
    ensures
        decode_spec(b) matches Ok(y) && encode_item(y) == b,
{
    round_trip(x);
}

/// Two items that the decoder accepts and that have the same encoding are
/// the same item.
pub proof fn one_encoding_per_item(x: Item, y: Item)
    requires
        nesting(x) <= MAX_DEPTH,
        nesting(y) <= MAX_DEPTH,
        encode_item(x).len() <= usize::MAX,
        encode_item(y).len() <= usize::MAX,
        encode_item(x) == encode_item(y),
    ensures
        x == y,
{
    round_trip(x);
    round_trip(y);
}

/// A byte string of 55 bytes takes the one-byte header; one of 56 bytes
/// takes the long header with a single length byte.
pub proof fn short_long_boundary(s55: Seq<u8>, s56: Seq<u8>)
    requires
        s55.len() == 55,
        s56.len() == 56,
    ensures
        encode_item(Item::Bytes(s55)) == seq![0xb7u8] + s55,
        encode_item(Item::Bytes(s56)) == seq![0xb8u8, 0x38u8] + s56,
{
    assert(be_bytes(0) =~= Seq::<u8>::empty());
    assert(be_bytes(56) =~= seq![0x38u8]);
    assert(seq![0xb8u8] + be_bytes(56) =~= seq![0xb8u8, 0x38u8]);
}

} // verus!
