use vstd::prelude::*;
use crate::prefix::{be_bytes, encode_length, long_header, lemma_be_bytes_len, lemma_pow256_8};
use crate::types::{Item, RLPItem};

verus! {

/// The header of a payload of `len` bytes, where `offset` is 0x80 for a
/// byte string and 0xc0 for a list: one byte below 56 bytes of payload, the
/// long form from 56 on.
pub open spec fn header(len: nat, offset: u8) -> Seq<u8> {
    if len < 56 {
        seq![(offset + len) as u8]
    } else {
        long_header(len, (offset + 55) as u8)
    }
}

/// The canonical encoding of an item.
pub open spec fn encode_item(x: Item) -> Seq<u8>
    decreases x,
{
    match x {
        Item::Bytes(b) => if b.len() == 1 && b[0] <= 0x7f {
            b
        } else {
            header(b.len(), 0x80) + b
        },
        Item::List(l) => header(encode_items(l).len(), 0xc0) + encode_items(l),
    }
}

/// The encodings of `l`'s items, one after the other.
pub open spec fn encode_items(l: Seq<Item>) -> Seq<u8>
    decreases l,
{
    if l.len() == 0 {
        Seq::empty()
    } else {
        encode_item(l[0]) + encode_items(l.subrange(1, l.len() as int))
    }
}

pub proof fn lemma_encode_items_push(l: Seq<Item>, x: Item)
    ensures
        encode_items(l.push(x)) == encode_items(l) + encode_item(x),
    decreases l.len(),
{
    if l.len() == 0 {
        assert(l.push(x).subrange(1, 1) =~= Seq::<Item>::empty());
        assert(l.push(x)[0] == x);
        assert(encode_items(Seq::<Item>::empty()) == Seq::<u8>::empty());
        assert(encode_items(l.push(x)) =~= encode_items(l) + encode_item(x));
    } else {
        let t = l.subrange(1, l.len() as int);
        lemma_encode_items_push(t, x);
        assert(l.push(x).subrange(1, l.len() + 1int) =~= t.push(x));
        assert(encode_items(l.push(x)) =~= encode_items(l) + encode_item(x));
    }
}

pub proof fn lemma_encode_items_split(l: Seq<Item>, i: int)
    requires
        0 <= i <= l.len(),
    ensures
        encode_items(l) == encode_items(l.take(i)) + encode_items(l.skip(i)),
    decreases i,
{
    if i == 0 {
        assert(l.take(0) =~= Seq::<Item>::empty());
        assert(l.skip(0) =~= l);
        assert(encode_items(l) =~= encode_items(l.take(i)) + encode_items(l.skip(i)));
    } else {
        let t = l.subrange(1, l.len() as int);
        lemma_encode_items_split(t, i - 1);
        assert(t.take(i - 1) =~= l.take(i).subrange(1, i));
        assert(t.skip(i - 1) =~= l.skip(i));
        assert(encode_items(l) =~= encode_items(l.take(i)) + encode_items(l.skip(i)));
    }
}

/// Appends the header of a payload of `len` bytes.
fn push_header(len: usize, offset: u8, out: &mut Vec<u8>)
    requires
        offset == 0x80 || offset == 0xc0,
    ensures
        final(out)@ == old(out)@ + header(len as nat, offset),
{
    if len < 56 {
        out.push(offset + len as u8);
    } else {
        let mut h = encode_length(len, offset + 55);
        out.append(&mut h);
    }
    assert(final(out)@ =~= old(out)@ + header(len as nat, offset));
}

/// The encoding of the byte string `b`.
fn encode_bytes(b: &[u8]) -> (r: Vec<u8>)
    ensures
        r@ == encode_item(Item::Bytes(b@)),
{
    let mut out: Vec<u8> = Vec::new();
    if b.len() == 1 && b[0] <= 0x7f {
        out.push(b[0]);
        assert(out@ =~= b@);
    } else {
        push_header(b.len(), 0x80, &mut out);
        let mut i: usize = 0;
        let ghost start = out@;
        while i < b.len()
            invariant
                i <= b@.len(),
                out@ == start + b@.take(i as int),
            decreases b@.len() - i,
        {
            out.push(b[i]);
            i = i + 1;
            assert(out@ =~= start + b@.take(i as int));
        }
        assert(b@.take(i as int) =~= b@);
    }
    out
}

/// The encoding of `input`.
fn rlp_encode(input: &RLPItem) -> (r: Vec<u8>)
    requires
        encode_item(input@).len() <= usize::MAX,
    ensures
        r@ == encode_item(input@),
    decreases input,
{
    match input {
        RLPItem::Bytes(v) => encode_bytes(v.as_slice()),
        RLPItem::Str(s) => encode_bytes(s.as_str().as_bytes()),
        RLPItem::List(l) => {
            let ghost items = input@->List_0;
            proof {
                lemma_encode_items_split(items, items.len() as int);
            }
            let mut inner: Vec<u8> = Vec::new();
            let mut i: usize = 0;
            while i < l.len()
                invariant
                    i <= l@.len(),
                    input is List && input->List_0 == *l,
                    items.len() == l@.len(),
                    forall|j: int| 0 <= j < l@.len() ==> #[trigger] items[j] == l@[j]@,
                    encode_items(items).len() <= usize::MAX,
                    inner@ == encode_items(items.take(i as int)),
                decreases l@.len() - i,
            {
                proof {
                    lemma_encode_items_split(items, i as int);
                    lemma_encode_items_push(items.take(i as int), items[i as int]);
                    assert(items.take(i as int).push(items[i as int]) =~= items.take(i + 1));
                    lemma_encode_items_split(items, i + 1);
                    assert(decreases_to!(input => input->List_0));
                    assert(decreases_to!(l => l@));
                    assert(decreases_to!(l@ => l@[i as int]));
                }
                let mut e = rlp_encode(&l[i]);
                inner.append(&mut e);
                i = i + 1;
            }
            assert(items.take(i as int) =~= items);
            let mut out: Vec<u8> = Vec::new();
            push_header(inner.len(), 0xc0, &mut out);
            out.append(&mut inner);
            out
        },
    }
}

/// The canonical encoding of `input`.
pub fn encode(input: RLPItem) -> (r: Vec<u8>)
    requires
        encode_item(input@).len() <= usize::MAX,
    ensures
        r@ == encode_item(input@),
{
    rlp_encode(&input)
}

} // verus!
