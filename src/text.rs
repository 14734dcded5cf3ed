use vstd::prelude::*;
use vstd::string::StringExecFns;
use vstd::utf8::encode_utf8;
use crate::types::RLPItem;

verus! {

/// The decimal digit `d`.
pub open spec fn digit(d: nat) -> char {
    if d == 0 {
        '0'
    } else if d == 1 {
        '1'
    } else if d == 2 {
        '2'
    } else if d == 3 {
        '3'
    } else if d == 4 {
        '4'
    } else if d == 5 {
        '5'
    } else if d == 6 {
        '6'
    } else if d == 7 {
        '7'
    } else if d == 8 {
        '8'
    } else {
        '9'
    }
}

/// `n` in decimal, without leading zeros.
pub open spec fn decimal(n: nat) -> Seq<char>
    decreases n,
{
    if n < 10 {
        seq![digit(n)]
    } else {
        decimal(n / 10).push(digit(n % 10))
    }
}

/// The bytes of `b` in decimal, separated by ", ".
pub open spec fn joined_bytes(b: Seq<u8>) -> Seq<char>
    decreases b.len(),
{
    if b.len() == 0 {
        Seq::empty()
    } else if b.len() == 1 {
        decimal(b[0] as nat)
    } else {
        joined_bytes(b.drop_last()) + seq![',', ' '] + decimal(b.last() as nat)
    }
}

/// The text of a value: a byte string as its bytes in decimal between
/// brackets ("[1, 2]"), a text as itself, and a list as the texts of its
/// items, each followed by ", ", between brackets.
pub open spec fn text_of(x: RLPItem) -> Seq<char>
    decreases x,
{
    match x {
        RLPItem::Bytes(v) => seq!['['] + joined_bytes(v@) + seq![']'],
        RLPItem::Str(s) => s@,
        RLPItem::List(l) => seq!['['] + texts_of(l@) + seq![']'],
    }
}

/// The texts of the values of `l`, each followed by ", ".
pub open spec fn texts_of(l: Seq<RLPItem>) -> Seq<char>
    decreases l,
{
    if l.len() == 0 {
        Seq::empty()
    } else {
        texts_of(l.subrange(0, l.len() - 1)) + text_of(l[l.len() - 1]) + seq![',', ' ']
    }
}

/// The decimal digit `d` as a one-character string.
fn digit_str(d: u8) -> (r: &'static str)
    requires
        d < 10,
    ensures
        r@ == seq![digit(d as nat)],
{
    if d == 0 {
        proof {
            reveal_strlit("0");
        }
        "0"
    } else if d == 1 {
        proof {
            reveal_strlit("1");
        }
        "1"
    } else if d == 2 {
        proof {
            reveal_strlit("2");
        }
        "2"
    } else if d == 3 {
        proof {
            reveal_strlit("3");
        }
        "3"
    } else if d == 4 {
        proof {
            reveal_strlit("4");
        }
        "4"
    } else if d == 5 {
        proof {
            reveal_strlit("5");
        }
        "5"
    } else if d == 6 {
        proof {
            reveal_strlit("6");
        }
        "6"
    } else if d == 7 {
        proof {
            reveal_strlit("7");
        }
        "7"
    } else if d == 8 {
        proof {
            reveal_strlit("8");
        }
        "8"
    } else {
        proof {
            reveal_strlit("9");
        }
        "9"
    }
}

/// Appends `n` in decimal.
fn push_decimal(n: u8, out: &mut String)
    ensures
        final(out)@ == old(out)@ + decimal(n as nat),
    decreases n,
{
    if n >= 10 {
        push_decimal(n / 10, out);
    }
    out.append(digit_str(n % 10));
    assert(final(out)@ =~= old(out)@ + decimal(n as nat));
}

/// Appends the text of `x`.
fn push_text(x: &RLPItem, out: &mut String)
    ensures
        final(out)@ == old(out)@ + text_of(*x),
    decreases x,
{
    proof {
        reveal_strlit("[");
        reveal_strlit("]");
        reveal_strlit(", ");
    }
    match x {
        RLPItem::Str(s) => {
            out.append(s.as_str());
        },
        RLPItem::Bytes(v) => {
            out.append("[");
            let ghost start = out@;
            let mut i: usize = 0;
            while i < v.len()
                invariant
                    i <= v@.len(),
                    out@ == start + joined_bytes(v@.take(i as int)),
                    ", "@ == seq![',', ' '],
                decreases v@.len() - i,
            {
                proof {
                    assert(v@.take(i + 1).drop_last() =~= v@.take(i as int));
                }
                if i > 0 {
                    out.append(", ");
                }
                push_decimal(v[i], out);
                i = i + 1;
                assert(out@ =~= start + joined_bytes(v@.take(i as int)));
            }
            assert(v@.take(i as int) =~= v@);
            out.append("]");
        },
        RLPItem::List(l) => {
            out.append("[");
            let ghost start = out@;
            let mut i: usize = 0;
            while i < l.len()
                invariant
                    i <= l@.len(),
                    x is List && x->List_0 == *l,
                    out@ == start + texts_of(l@.take(i as int)),
                    ", "@ == seq![',', ' '],
                decreases l@.len() - i,
            {
                proof {
                    assert(l@.take(i + 1).subrange(0, i as int) =~= l@.take(i as int));
                    assert(decreases_to!(x => x->List_0));
                    assert(decreases_to!(l => l@));
                    assert(decreases_to!(l@ => l@[i as int]));
                }
                push_text(&l[i], out);
                out.append(", ");
                i = i + 1;
                assert(out@ =~= start + texts_of(l@.take(i as int)));
            }
            assert(l@.take(i as int) =~= l@);
            out.append("]");
        },
    }
    assert(final(out)@ =~= old(out)@ + text_of(*x));
}

impl RLPItem {
    /// The text of this value (see `text_of`).
    pub fn to_string(&self) -> (r: String)
        ensures
            r@ == text_of(*self),
    {
        let mut out = String::new();
        push_text(self, &mut out);
        assert(out@ =~= text_of(*self));
        out
    }
}

impl std::ops::AddAssign for RLPItem {
    /// Adds `other` at the end: to a list as its last item; to a byte string
    /// as the UTF-8 bytes of its text; to a text as its text.
    fn add_assign(&mut self, other: RLPItem)
        ensures
            match *old(self) {
                RLPItem::Bytes(v) => *final(self) matches RLPItem::Bytes(w) && w@ == v@ + encode_utf8(text_of(other)),
                RLPItem::Str(s) => *final(self) matches RLPItem::Str(t) && t@ == s@ + text_of(other),
                RLPItem::List(l) => *final(self) matches RLPItem::List(m) && m@ == l@.push(other),
            },
    {
        match self {
            RLPItem::Bytes(v) => {
                let t = other.to_string();
                let b = t.as_str().as_bytes();
                let ghost start = v@;
                let mut i: usize = 0;
                while i < b.len()
                    invariant
                        i <= b@.len(),
                        v@ == start + b@.take(i as int),
                    decreases b@.len() - i,
                {
                    v.push(b[i]);
                    i = i + 1;
                    assert(v@ =~= start + b@.take(i as int));
                }
                assert(b@.take(i as int) =~= b@);
            },
            RLPItem::Str(s) => {
                let t = other.to_string();
                s.append(t.as_str());
            },
            RLPItem::List(l) => {
                l.push(other);
            },
        }
    }
}

} // verus!
