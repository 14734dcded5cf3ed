use vstd::prelude::*;

verus! {

/// The class of an encoded item, read from its first byte.
#[derive(Debug, Clone, Copy, PartialEq, Eq, Structural)]
pub enum Kind {
    SingleByte,
    EmptyString,
    ShortString,
    LongString,
    EmptyList,
    ShortList,
    LongList,
}

/// Why a buffer could not be decoded.
#[derive(Debug, Clone, Copy, PartialEq, Eq, Structural)]
pub enum DecodeError {
    /// A header was asked of a buffer with no bytes.
    EmptyInput,
    /// A header or a payload runs past the end of the buffer.
    Truncated,
    /// A first byte that names no kind; the prefix table covers every byte,
    /// so the decoder never reports it.
    InvalidPrefix,
    /// Lists are nested deeper than the decoder accepts.
    TooDeep,
}

pub open spec fn pow256(n: nat) -> nat
    decreases n,
{
    if n == 0 {
        1
    } else {
        256 * pow256((n - 1) as nat)
    }
}

/// The shortest big-endian bytes of `n`: no leading zero byte, and none at
/// all for zero.
pub open spec fn be_bytes(n: nat) -> Seq<u8>
    decreases n,
{
    if n == 0 {
        Seq::empty()
    } else {
        be_bytes(n / 256).push((n % 256) as u8)
    }
}

/// The number that big-endian bytes stand for.
pub open spec fn be_value(s: Seq<u8>) -> nat
    decreases s.len(),
{
    if s.len() == 0 {
        0
    } else {
        be_value(s.drop_last()) * 256 + s.last() as nat
    }
}

/// A long-form header: the count of length bytes added to `offset`, then
/// the length itself in big-endian.
pub open spec fn long_header(len: nat, offset: u8) -> Seq<u8> {
    seq![(offset + be_bytes(len).len()) as u8] + be_bytes(len)
}

/// The kind named by a first byte.
pub open spec fn kind_of(p: u8) -> Kind {
    if p <= 0x7f {
        Kind::SingleByte
    } else if p == 0x80 {
        Kind::EmptyString
    } else if p <= 0xb7 {
        Kind::ShortString
    } else if p <= 0xbf {
        Kind::LongString
    } else if p == 0xc0 {
        Kind::EmptyList
    } else if p <= 0xf7 {
        Kind::ShortList
    } else {
        Kind::LongList
    }
}

/// How many length bytes follow a first byte (zero for the short forms).
pub open spec fn length_of_length(p: u8) -> nat {
    if 0xb8 <= p <= 0xbf {
        (p - 0xb7) as nat
    } else if 0xf8 <= p {
        (p - 0xf7) as nat
    } else {
        0
    }
}

/// Header size and payload length that the header at the start of `b`
/// declares; `b` holds at least the first byte and the length bytes.
pub open spec fn declared(b: Seq<u8>) -> (nat, nat) {
    let p = b[0];
    let ll = length_of_length(p);
    match kind_of(p) {
        Kind::SingleByte => (0, 1),
        Kind::EmptyString | Kind::EmptyList => (1, 0),
        Kind::ShortString => (1, (p - 0x80) as nat),
        Kind::ShortList => (1, (p - 0xc0) as nat),
        Kind::LongString | Kind::LongList => (1 + ll, be_value(b.subrange(1, 1 + ll as int))),
    }
}

/// The header at the start of `b`: header size, payload length and kind.
pub open spec fn prefix_of(b: Seq<u8>) -> Result<(nat, nat, Kind), DecodeError> {
    if b.len() == 0 {
        Err(DecodeError::EmptyInput)
    } else if b.len() < 1 + length_of_length(b[0]) {
        Err(DecodeError::Truncated)
    } else {
        let (h, n) = declared(b);
        if h + n > b.len() {
            Err(DecodeError::Truncated)
        } else {
            Ok((h, n, kind_of(b[0])))
        }
    }
}

pub proof fn lemma_be_round_trip(n: nat)
    ensures
        be_value(be_bytes(n)) == n,
    decreases n,
{
    if n > 0 {
        lemma_be_round_trip(n / 256);
        assert(be_bytes(n).drop_last() =~= be_bytes(n / 256));
    }
}

pub proof fn lemma_be_bytes_len(n: nat, k: nat)
    requires
        n < pow256(k),
    ensures
        be_bytes(n).len() <= k,
        n > 0 ==> be_bytes(n).len() > 0 && be_bytes(n)[0] != 0,
    decreases n,
{
    if n > 0 {
        if n < 256 {
            assert(n / 256 == 0 && n % 256 == n);
            assert(be_bytes(0) =~= Seq::<u8>::empty());
            assert(be_bytes(n) =~= seq![n as u8]);
        } else {
            lemma_be_bytes_len(n / 256, (k - 1) as nat);
        }
    }
}

pub proof fn lemma_pow256_8()
    ensures
        pow256(8) == 0x1_0000_0000_0000_0000,
{
    reveal_with_fuel(pow256, 9);
}

/// Appends the shortest big-endian bytes of `n` to `out`.
fn push_be_bytes(n: usize, out: &mut Vec<u8>)
    ensures
        final(out)@ == old(out)@ + be_bytes(n as nat),
    decreases n,
{
    if n > 0 {
        push_be_bytes(n / 256, out);
        out.push((n % 256) as u8);
        assert(final(out)@ =~= old(out)@ + be_bytes(n as nat));
    }
}

/// The header byte `offset` plus the number of length bytes, followed by
/// `length` in its shortest big-endian form.
pub fn encode_length(length: usize, offset: u8) -> (r: Vec<u8>)
    requires
        offset <= 0xf7,
    ensures
        r@ == long_header(length as nat, offset),
{
    let mut bytes: Vec<u8> = Vec::new();
    push_be_bytes(length, &mut bytes);
    proof {
        lemma_pow256_8();
        lemma_be_bytes_len(length as nat, 8);
        assert(bytes@ =~= be_bytes(length as nat));
    }
    let mut out: Vec<u8> = vec![offset + bytes.len() as u8];
    out.append(&mut bytes);
    out
}

/// Reads the header at the start of `input`: its size, the length of the
/// payload that follows it, and the kind of item.
pub fn decode_length(input: &[u8]) -> (r: Result<(usize, usize, Kind), DecodeError>)
    ensures
        match r {
            Ok((h, n, k)) => prefix_of(input@) == Ok::<(nat, nat, Kind), DecodeError>((h as nat, n as nat, k)),
            Err(e) => prefix_of(input@) == Err::<(nat, nat, Kind), DecodeError>(e),
        },
{
    if input.len() == 0 {
        return Err(DecodeError::EmptyInput);
    }
    let p = input[0];
    if p <= 0x7f {
        return Ok((0, 1, Kind::SingleByte));
    }
    if p == 0x80 {
        return Ok((1, 0, Kind::EmptyString));
    }
    if p == 0xc0 {
        return Ok((1, 0, Kind::EmptyList));
    }
    if p <= 0xb7 || (0xc0 < p && p <= 0xf7) {
        let (n, k) = if p <= 0xb7 {
            ((p - 0x80) as usize, Kind::ShortString)
        } else {
            ((p - 0xc0) as usize, Kind::ShortList)
        };
        if input.len() - 1 < n {
            return Err(DecodeError::Truncated);
        }
        return Ok((1, n, k));
    }
    let (ll, k) = if p <= 0xbf {
        ((p - 0xb7) as usize, Kind::LongString)
    } else {
        ((p - 0xf7) as usize, Kind::LongList)
    };
    if input.len() - 1 < ll {
        return Err(DecodeError::Truncated);
    }
    let mut value: u64 = 0;
    let mut i: usize = 0;
    while i < ll
        invariant
            1 <= ll <= 8,
            1 + ll <= input@.len(),
            i <= ll,
            value as nat == be_value(input@.subrange(1, 1 + i as int)),
            (value as nat) < pow256(i as nat),
        decreases ll - i,
    {
        proof {
            lemma_pow256_8();
            lemma_pow256_monotonic((i + 1) as nat, 8);
            assert(input@.subrange(1, 1 + i + 1).drop_last() =~= input@.subrange(1, 1 + i as int));
        }
        value = value * 256 + input[1 + i] as u64;
        i = i + 1;
    }
    let rest = input.len() - (1 + ll);
    if value > rest as u64 {
        return Err(DecodeError::Truncated);
    }
    Ok((1 + ll, value as usize, k))
}

pub proof fn lemma_pow256_monotonic(i: nat, j: nat)
    requires
        i <= j,
    ensures
        pow256(i) <= pow256(j),
    decreases j,
{
    if i < j {
        lemma_pow256_monotonic(i, (j - 1) as nat);
    }
}

} // verus!
