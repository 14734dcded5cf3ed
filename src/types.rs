use vstd::prelude::*;
use vstd::slice::slice_to_vec;
use vstd::utf8::encode_utf8;

verus! {

/// What an `RLPItem` denotes on the wire: a byte string or an ordered list
/// of items.
pub enum Item {
    Bytes(Seq<u8>),
    List(Seq<Item>),
}

/// A value that can be encoded. `Str` is a convenience for text: it stands
/// for the byte string of its UTF-8 bytes and is never produced by decoding.
#[derive(Debug)]
pub enum RLPItem {
    Bytes(Vec<u8>),
    Str(String),
    List(Vec<RLPItem>),
}

/// The item that `x` stands for.
pub open spec fn item_of(x: &RLPItem) -> Item
    decreases x,
{
    match x {
        RLPItem::Bytes(v) => Item::Bytes(v@),
        RLPItem::Str(s) => Item::Bytes(encode_utf8(s@)),
        RLPItem::List(l) => Item::List(
            Seq::new(l.len() as nat, |i: int| if 0 <= i < l.len() { item_of(&l@[i]) } else { Item::Bytes(Seq::empty()) }),
        ),
    }
}

/// The items that the values of `v` stand for.
pub open spec fn items_of(v: Seq<RLPItem>) -> Seq<Item> {
    Seq::new(v.len(), |i: int| v[i]@)
}

/// A list value stands for the list of what its values stand for.
pub proof fn lemma_list_view(l: Vec<RLPItem>)
    ensures
        RLPItem::List(l)@ == Item::List(items_of(l@)),
{
    assert(item_of(&RLPItem::List(l))->List_0 =~= items_of(l@));
}

impl View for RLPItem {
    type V = Item;

    open spec fn view(&self) -> Item {
        item_of(self)
    }
}

/// The bytes of a byte string or of a text; `None` for a list.
fn payload_bytes(x: &RLPItem) -> (r: Option<&[u8]>)
    ensures
        match r {
            Some(b) => x@ == Item::Bytes(b@),
            None => x is List,
        },
{
    match x {
        RLPItem::Bytes(v) => Some(v.as_slice()),
        RLPItem::Str(s) => Some(s.as_str().as_bytes()),
        RLPItem::List(_) => None,
    }
}

fn same_bytes(a: &[u8], b: &[u8]) -> (r: bool)
    ensures
        r == (a@ == b@),
{
    if a.len() != b.len() {
        return false;
    }
    let mut i: usize = 0;
    while i < a.len()
        invariant
            i <= a@.len(),
            a@.len() == b@.len(),
            a@.take(i as int) == b@.take(i as int),
        decreases a@.len() - i,
    {
        if a[i] != b[i] {
            return false;
        }
        assert(a@.take(i + 1) =~= a@.take(i as int).push(a@[i as int]));
        assert(b@.take(i + 1) =~= b@.take(i as int).push(b@[i as int]));
        i = i + 1;
    }
    assert(a@.take(i as int) =~= a@);
    assert(b@.take(i as int) =~= b@);
    true
}

/// Whether `a` and `b` stand for the same item.
fn same_item(a: &RLPItem, b: &RLPItem) -> (r: bool)
    ensures
        r == (a@ == b@),
    decreases a,
{
    match (a, b) {
        (RLPItem::List(x), RLPItem::List(y)) => {
            proof {
                lemma_list_view(*x);
                lemma_list_view(*y);
                assert(a@ == Item::List(items_of(x@)));
                assert(b@ == Item::List(items_of(y@)));
            }
            if x.len() != y.len() {
                assert(items_of(x@).len() != items_of(y@).len());
                return false;
            }
            let mut i: usize = 0;
            while i < x.len()
                invariant
                    i <= x@.len(),
                    x@.len() == y@.len(),
                    a is List && a->List_0 == *x,
                    a@ == Item::List(items_of(x@)),
                    b@ == Item::List(items_of(y@)),
                    items_of(x@).take(i as int) == items_of(y@).take(i as int),
                decreases x@.len() - i,
            {
                proof {
                    assert(decreases_to!(a => a->List_0));
                    assert(decreases_to!(x => x@));
                    assert(decreases_to!(x@ => x@[i as int]));
                }
                if !same_item(&x[i], &y[i]) {
                    assert(items_of(x@)[i as int] != items_of(y@)[i as int]);
                    assert(items_of(x@) != items_of(y@));
                    return false;
                }
                assert(items_of(x@).take(i + 1) =~= items_of(x@).take(i as int).push(x@[i as int]@));
                assert(items_of(y@).take(i + 1) =~= items_of(y@).take(i as int).push(y@[i as int]@));
                i = i + 1;
            }
            assert(items_of(x@).take(i as int) =~= items_of(x@));
            assert(items_of(y@).take(i as int) =~= items_of(y@));
            true
        },
        (RLPItem::List(_), _) | (_, RLPItem::List(_)) => false,
        _ => match (payload_bytes(a), payload_bytes(b)) {
            (Some(p), Some(q)) => same_bytes(p, q),
            _ => false,
        },
    }
}

impl PartialEq for RLPItem {
    fn eq(&self, other: &RLPItem) -> (r: bool) {
        same_item(self, other)
    }
}

impl Eq for RLPItem {
}

impl vstd::std_specs::cmp::PartialEqSpecImpl for RLPItem {
    open spec fn obeys_eq_spec() -> bool {
        true
    }

    open spec fn eq_spec(&self, other: &RLPItem) -> bool {
        self@ == other@
    }
}

// A `Vec` or a `String` cannot be built in a spec, so the conversions below
// that make one state their result in the `ensures` of `from` itself.
impl From<u8> for RLPItem {
    /// The byte string of the one byte `i`.
    fn from(i: u8) -> (r: RLPItem)
        ensures
            r@ == Item::Bytes(seq![i]),
    {
        let v = vec![i];
        assert(v@ =~= seq![i]);
        RLPItem::Bytes(v)
    }
}

impl vstd::std_specs::convert::FromSpecImpl<u8> for RLPItem {
    open spec fn obeys_from_spec() -> bool {
        false
    }

    open spec fn from_spec(i: u8) -> RLPItem {
        arbitrary()
    }
}

impl<'a> From<&'a [u8]> for RLPItem {
    /// The byte string of a copy of `v`.
    fn from(v: &'a [u8]) -> (r: RLPItem)
        ensures
            r@ == Item::Bytes(v@),
    {
        RLPItem::Bytes(slice_to_vec(v))
    }
}

impl<'a> vstd::std_specs::convert::FromSpecImpl<&'a [u8]> for RLPItem {
    open spec fn obeys_from_spec() -> bool {
        false
    }

    open spec fn from_spec(v: &'a [u8]) -> RLPItem {
        arbitrary()
    }
}

impl<'a> From<&'a str> for RLPItem {
    /// The text `s`, which stands for the byte string of its UTF-8 bytes.
    fn from(s: &'a str) -> (r: RLPItem)
        ensures
            r == RLPItem::Str(r->Str_0),
            r->Str_0@ == s@,
            r@ == Item::Bytes(encode_utf8(s@)),
    {
        RLPItem::Str(s.to_owned())
    }
}

impl<'a> vstd::std_specs::convert::FromSpecImpl<&'a str> for RLPItem {
    open spec fn obeys_from_spec() -> bool {
        false
    }

    open spec fn from_spec(s: &'a str) -> RLPItem {
        arbitrary()
    }
}

impl From<Vec<RLPItem>> for RLPItem {
    /// The list of the items of `v`, in order.
    fn from(v: Vec<RLPItem>) -> (r: RLPItem) {
        RLPItem::List(v)
    }
}

impl vstd::std_specs::convert::FromSpecImpl<Vec<RLPItem>> for RLPItem {
    open spec fn obeys_from_spec() -> bool {
        true
    }

    open spec fn from_spec(v: Vec<RLPItem>) -> RLPItem {
        RLPItem::List(v)
    }
}

} // verus!
