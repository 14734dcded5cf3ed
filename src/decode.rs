use vstd::prelude::*;
use vstd::slice::slice_to_vec;
use crate::prefix::{decode_length, prefix_of, DecodeError, Kind};
use crate::types::{items_of, lemma_list_view, Item, RLPItem};

verus! {

/// How many levels of nested lists `decode` accepts.
pub const MAX_DEPTH: usize = 256;

pub open spec fn is_list_kind(k: Kind) -> bool {
    k == Kind::EmptyList || k == Kind::ShortList || k == Kind::LongList
}

/// The item encoded at the start of `b`, where `depth` more levels of list
/// nesting may be entered. Bytes after the item are not read.
pub open spec fn decode_at(b: Seq<u8>, depth: nat) -> Result<Item, DecodeError>
    decreases b.len(), 0nat,
{
    match prefix_of(b) {
        Err(e) => Err(e),
        Ok((h, n, k)) => {
            let payload = b.subrange(h as int, (h + n) as int);
            if !is_list_kind(k) {
                Ok(Item::Bytes(payload))
            } else if depth == 0 {
                Err(DecodeError::TooDeep)
            } else {
                match decode_seq(payload, (depth - 1) as nat) {
                    Ok(l) => Ok(Item::List(l)),
                    Err(e) => Err(e),
                }
            }
        },
    }
}

/// The items encoded one after the other in `p`, which they must fill
/// exactly.
pub open spec fn decode_seq(p: Seq<u8>, depth: nat) -> Result<Seq<Item>, DecodeError>
    decreases p.len(), 1nat,
{
    if p.len() == 0 {
        Ok(Seq::empty())
    } else {
        match prefix_of(p) {
            Err(e) => Err(e),
            Ok((h, n, k)) => match decode_at(p, depth) {
                Err(e) => Err(e),
                Ok(x) => match decode_seq(p.subrange((h + n) as int, p.len() as int), depth) {
                    Err(e) => Err(e),
                    Ok(rest) => Ok(seq![x] + rest),
                },
            },
        }
    }
}

/// What `decode` gives for a whole buffer: the empty buffer stands for the
/// empty byte string; otherwise the item at its start.
pub open spec fn decode_spec(b: Seq<u8>) -> Result<Item, DecodeError> {
    if b.len() == 0 {
        Ok(Item::Bytes(Seq::empty()))
    } else {
        decode_at(b, MAX_DEPTH as nat)
    }
}

pub open spec fn decoded_as(r: Result<RLPItem, DecodeError>, s: Result<Item, DecodeError>) -> bool {
    match r {
        Ok(x) => s == Ok::<Item, DecodeError>(x@),
        Err(e) => s == Err::<Item, DecodeError>(e),
    }
}

/// The item at the start of `input`.
fn decode_item(input: &[u8], depth: usize) -> (r: Result<RLPItem, DecodeError>)
    ensures
        decoded_as(r, decode_at(input@, depth as nat)),
    decreases input@.len(), 0nat,
{
    let (h, n, k) = match decode_length(input) {
        Ok(t) => t,
        Err(e) => return Err(e),
    };
    let len = input.len();
    assert(h + n <= len);
    let payload = &input[h..h + n];
    if !(k == Kind::EmptyList || k == Kind::ShortList || k == Kind::LongList) {
        return Ok(RLPItem::Bytes(slice_to_vec(payload)));
    }
    if depth == 0 {
        return Err(DecodeError::TooDeep);
    }
    match decode_list(payload, depth - 1) {
        Ok(l) => {
            proof {
                lemma_list_view(l);
            }
            Ok(RLPItem::List(l))
        },
        Err(e) => Err(e),
    }
}

/// The items encoded one after the other in `input`.
fn decode_list(input: &[u8], depth: usize) -> (r: Result<Vec<RLPItem>, DecodeError>)
    ensures
        match r {
            Ok(v) => decode_seq(input@, depth as nat) == Ok::<Seq<Item>, DecodeError>(items_of(v@)),
            Err(e) => decode_seq(input@, depth as nat) == Err::<Seq<Item>, DecodeError>(e),
        },
    decreases input@.len(), 1nat,
{
    let mut list: Vec<RLPItem> = Vec::new();
    let mut i: usize = 0;
    proof {
        assert(input@.skip(0) =~= input@);
        assert(items_of(list@) =~= Seq::<Item>::empty());
        if let Ok(s) = decode_seq(input@, depth as nat) {
            assert(Seq::<Item>::empty() + s =~= s);
        }
    }
    while i < input.len()
        invariant
            i <= input@.len(),
            decode_seq(input@, depth as nat) == match decode_seq(input@.skip(i as int), depth as nat) {
                Ok(rest) => Ok(items_of(list@) + rest),
                Err(e) => Err::<Seq<Item>, DecodeError>(e),
            },
        decreases input@.len() - i,
    {
        let rest = &input[i..input.len()];
        assert(rest@ =~= input@.skip(i as int));
        let (h, n, _k) = match decode_length(rest) {
            Ok(t) => t,
            Err(e) => return Err(e),
        };
        let x = match decode_item(rest, depth) {
            Ok(x) => x,
            Err(e) => return Err(e),
        };
        let ghost old_list = list@;
        proof {
            assert(input@.skip(i as int).subrange(h + n, rest@.len() as int) =~= input@.skip(i + h + n));
            assert(items_of(list@.push(x)) =~= items_of(list@).push(x@));
        }
        list.push(x);
        i = i + h + n;
        proof {
            if let Ok(r) = decode_seq(input@.skip(i as int), depth as nat) {
                assert(items_of(old_list) + (seq![x@] + r) =~= items_of(list@) + r);
            }
        }
    }
    proof {
        assert(input@.skip(i as int) =~= Seq::<u8>::empty());
        assert(items_of(list@) + Seq::<Item>::empty() =~= items_of(list@));
    }
    Ok(list)
}

/// Decodes the item at the start of `input`; an empty buffer gives the empty
/// byte string.
pub fn decode(input: Vec<u8>) -> (r: Result<RLPItem, DecodeError>)
    ensures
        decoded_as(r, decode_spec(input@)),
{
    if input.len() == 0 {
        return Ok(RLPItem::Bytes(Vec::new()));
    }
    decode_item(input.as_slice(), MAX_DEPTH)
}

} // verus!
