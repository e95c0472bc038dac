//! The tags that are collected for a TIFF directory, in the order in which they
//! are added.
use crate::rational::{numerator_of, read_binary32};
use vstd::prelude::*;

verus! {

/// The values of one tag.
pub enum Value {
    Short(Vec<u16>),
    Long(Vec<u32>),
    /// Numerators and denominators.
    SRational(Vec<(i32, i32)>),
    /// Binary32 bit patterns.
    Float(Vec<u32>),
    /// Text with its terminating zero byte.
    Ascii(Vec<u8>),
}

/// What a [`Value`] holds.
#[verifier::ext_equal]
pub enum Values {
    Short(Seq<u16>),
    Long(Seq<u32>),
    SRational(Seq<(i32, i32)>),
    Float(Seq<u32>),
    Ascii(Seq<u8>),
}

impl View for Value {
    type V = Values;

    open spec fn view(&self) -> Values {
        match *self {
            Value::Short(v) => Values::Short(v@),
            Value::Long(v) => Values::Long(v@),
            Value::SRational(v) => Values::SRational(v@),
            Value::Float(v) => Values::Float(v@),
            Value::Ascii(v) => Values::Ascii(v@),
        }
    }
}

/// The tags of one directory with their values, in the order in which they were
/// added.
pub struct DirectoryWriter {
    entries: Vec<(u16, Value)>,
}

impl View for DirectoryWriter {
    type V = Seq<(u16, Values)>;

    closed spec fn view(&self) -> Seq<(u16, Values)> {
        self.entries@.map_values(|e: (u16, Value)| (e.0, e.1@))
    }
}

impl DirectoryWriter {
    /// A directory without tags.
    pub fn new() -> (r: Self)
        ensures
            r@ == Seq::<(u16, Values)>::empty(),
    {
        let r = DirectoryWriter { entries: Vec::new() };
        assert(r@ =~= Seq::empty());
        r
    }

    /// Adds a tag behind those that are there.
    pub fn add(&mut self, tag: u16, value: Value)
        ensures
            final(self)@ == old(self)@.push((tag, value@)),
    {
        self.entries.push((tag, value));
        assert(self@ =~= old(self)@.push((tag, value@)));
    }

    /// Number of tags.
    pub fn len(&self) -> (r: usize)
        ensures
            r == self@.len(),
    {
        self.entries.len()
    }

    /// Tag `i` and its values.
    pub fn entry(&self, i: usize) -> (r: (u16, &Value))
        requires
            i < self@.len(),
        ensures
            (r.0, r.1@) == self@[i as int],
    {
        let e = &self.entries[i];
        (e.0, &e.1)
    }
}

/// The signed rationals of binary32 numbers over one denominator.
pub open spec fn srationals(values: Seq<u32>, denom: i32) -> Seq<(i32, i32)> {
    values.map_values(
        |v: u32| (crate::rational::numerator(crate::rational::binary32(v), denom), denom),
    )
}

/// Binary32 numbers as signed rationals over one denominator.
pub fn srational_from_floats(values: &[u32], denom: i32) -> (r: Value)
    ensures
        r@ == Values::SRational(srationals(values@, denom)),
{
    let mut pairs: Vec<(i32, i32)> = Vec::new();
    let mut i: usize = 0;
    while i < values.len()
        invariant
            i <= values@.len(),
            pairs@ == srationals(values@, denom).take(i as int),
        decreases values@.len() - i,
    {
        pairs.push((numerator_of(read_binary32(values[i]), denom), denom));
        i = i + 1;
        assert(pairs@ =~= srationals(values@, denom).take(i as int));
    }
    assert(srationals(values@, denom).take(i as int) =~= srationals(values@, denom));
    Value::SRational(pairs)
}

/// A name as a terminated string.
pub open spec fn terminated(name: Seq<char>) -> Seq<u8> {
    vstd::utf8::encode_utf8(name).push(0)
}

/// A name as a terminated string.
pub fn ascii_of(name: &str) -> (r: Value)
    requires
        crate::mmcr::terminable(name@),
    ensures
        r@ == Values::Ascii(terminated(name@)),
{
    let mut bytes: Vec<u8> = Vec::new();
    crate::endian::push_bytes(&mut bytes, name.as_bytes());
    bytes.push(0);
    assert(bytes@ =~= terminated(name@));
    Value::Ascii(bytes)
}

/// A tag with one 16-bit value.
pub fn short_of(value: u16) -> (r: Value)
    ensures
        r@ == Values::Short(seq![value]),
{
    let values: Vec<u16> = vec![value];
    assert(values@ =~= seq![value]);
    Value::Short(values)
}

/// A tag with binary32 values.
pub fn float_of(values: &[u32]) -> (r: Value)
    ensures
        r@ == Values::Float(values@),
{
    let mut copy: Vec<u32> = Vec::new();
    copy.extend_from_slice(values);
    assert(copy@ =~= values@);
    Value::Float(copy)
}

/// A tag with one 32-bit value.
pub fn long_of(value: u32) -> (r: Value)
    ensures
        r@ == Values::Long(seq![value]),
{
    let values: Vec<u32> = vec![value];
    assert(values@ =~= seq![value]);
    Value::Long(values)
}

} // verus!
