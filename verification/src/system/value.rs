use crate::store::StoreValue;
use crate::system::filesystem::text_writes;
use std::collections::hash_map::DefaultHasher;
use std::collections::BTreeSet;
use std::hash::{Hash, Hasher};
use vstd::prelude::*;
use vstd::std_specs::hash::DefaultHasherAdditionalSpecFns;
use vstd::std_specs::convert::FromSpecImpl;

verus! {

/// Enumeration of possible attribute value types.
///
/// A float is held as its IEEE-754 bit pattern (`f32::to_bits`).
#[derive(Debug)]
pub enum Value {
    Empty,
    Bool(bool),
    TextBuffer(String),
    Int(i32),
    IntPair(i32, i32),
    IntRange(i32, i32, i32),
    Float(u32),
    FloatPair(u32, u32),
    FloatRange(u32, u32, u32),
    BinaryVector(Vec<u8>),
    Reference(u64),
    Symbol(String),
    Complex(BTreeSet<String>),
}

/// The mathematical model of a [`Value`]: texts as character sequences, bytes as a sequence.
pub enum ValueModel {
    Empty,
    Bool(bool),
    TextBuffer(Seq<char>),
    Int(i32),
    IntPair(i32, i32),
    IntRange(i32, i32, i32),
    Float(u32),
    FloatPair(u32, u32),
    FloatRange(u32, u32, u32),
    BinaryVector(Seq<u8>),
    Reference(u64),
    Symbol(Seq<char>),
    Complex(Set<String>),
}

impl View for Value {
    type V = ValueModel;

    open spec fn view(&self) -> ValueModel {
        match self {
            Value::Empty => ValueModel::Empty,
            Value::Bool(b) => ValueModel::Bool(*b),
            Value::TextBuffer(t) => ValueModel::TextBuffer(t@),
            Value::Int(i) => ValueModel::Int(*i),
            Value::IntPair(a, b) => ValueModel::IntPair(*a, *b),
            Value::IntRange(a, b, c) => ValueModel::IntRange(*a, *b, *c),
            Value::Float(f) => ValueModel::Float(*f),
            Value::FloatPair(a, b) => ValueModel::FloatPair(*a, *b),
            Value::FloatRange(a, b, c) => ValueModel::FloatRange(*a, *b, *c),
            Value::BinaryVector(v) => ValueModel::BinaryVector(v@),
            Value::Reference(r) => ValueModel::Reference(*r),
            Value::Symbol(s) => ValueModel::Symbol(s@),
            Value::Complex(c) => ValueModel::Complex(c@),
        }
    }
}

impl Clone for Value {
    fn clone(&self) -> (r: Self)
        ensures
            r@ == self@,
    {
        match self {
            Value::Empty => Value::Empty,
            Value::Bool(b) => Value::Bool(*b),
            Value::TextBuffer(t) => Value::TextBuffer(t.clone()),
            Value::Int(i) => Value::Int(*i),
            Value::IntPair(a, b) => Value::IntPair(*a, *b),
            Value::IntRange(a, b, c) => Value::IntRange(*a, *b, *c),
            Value::Float(f) => Value::Float(*f),
            Value::FloatPair(a, b) => Value::FloatPair(*a, *b),
            Value::FloatRange(a, b, c) => Value::FloatRange(*a, *b, *c),
            Value::BinaryVector(v) => {
                let copy = v.clone();
                assert(copy@ =~= v@);
                Value::BinaryVector(copy)
            },
            Value::Reference(r) => Value::Reference(*r),
            Value::Symbol(s) => Value::Symbol(s.clone()),
            Value::Complex(c) => Value::Complex(c.clone()),
        }
    }
}

impl Default for Value {
    /// The empty value.
    fn default() -> (r: Self)
        ensures
            r@ == ValueModel::Empty,
    {
        Value::Empty
    }
}

impl Value {
    /// Returns an empty tuple if value is an Empty type.
    pub fn empty(&self) -> (r: Option<()>)
        ensures
            r is Some <==> self@ is Empty,
    {
        match self {
            Self::Empty => Some(()),
            _ => None,
        }
    }

    /// Returns a bool if this value is a bool literal.
    pub fn bool(&self) -> (r: Option<bool>)
        ensures
            r == match self@ {
                ValueModel::Bool(b) => Some(b),
                _ => None,
            },
    {
        match self {
            Self::Bool(b) => Some(*b),
            _ => None,
        }
    }

    /// Returns a String if this value is a text buffer.
    pub fn text(&self) -> (r: Option<String>)
        ensures
            match r {
                Some(t) => self@ == ValueModel::TextBuffer(t@),
                None => !(self@ is TextBuffer),
            },
    {
        match self {
            Self::TextBuffer(buffer) => Some(buffer.clone()),
            _ => None,
        }
    }

    /// Returns an i32 if this value is an int.
    pub fn int_value(&self) -> (r: Option<i32>)
        ensures
            r == match self@ {
                ValueModel::Int(i) => Some(i),
                _ => None,
            },
    {
        match self {
            Self::Int(i) => Some(*i),
            _ => None,
        }
    }

    /// Returns a tuple (i32, i32) if this value is an int pair.
    pub fn int_pair(&self) -> (r: Option<(i32, i32)>)
        ensures
            r == match self@ {
                ValueModel::IntPair(a, b) => Some((a, b)),
                _ => None,
            },
    {
        match self {
            Self::IntPair(a, b) => Some((*a, *b)),
            _ => None,
        }
    }

    /// Returns a tuple (i32, i32, i32) if this value is an int range.
    pub fn int_range(&self) -> (r: Option<(i32, i32, i32)>)
        ensures
            r == match self@ {
                ValueModel::IntRange(a, b, c) => Some((a, b, c)),
                _ => None,
            },
    {
        match self {
            Self::IntRange(a, b, c) => Some((*a, *b, *c)),
            _ => None,
        }
    }

    /// Returns a String if this value is a symbol.
    pub fn symbol(&self) -> (r: Option<String>)
        ensures
            match r {
                Some(s) => self@ == ValueModel::Symbol(s@),
                None => !(self@ is Symbol),
            },
    {
        match self {
            Self::Symbol(symbol) => Some(symbol.clone()),
            _ => None,
        }
    }

    /// Returns a vector of bytes if this value is a binary vector.
    pub fn binary(&self) -> (r: Option<Vec<u8>>)
        ensures
            match r {
                Some(v) => self@ == ValueModel::BinaryVector(v@),
                None => !(self@ is BinaryVector),
            },
    {
        match self {
            Self::BinaryVector(vec) => {
                let copy = vec.clone();
                assert(copy@ =~= vec@);
                Some(copy)
            },
            _ => None,
        }
    }

    /// Returns a btree set if this value is a complex.
    pub fn complex(&self) -> (r: Option<BTreeSet<String>>)
        ensures
            match r {
                Some(c) => self@ == ValueModel::Complex(c@),
                None => !(self@ is Complex),
            },
    {
        match self {
            Self::Complex(c) => Some(c.clone()),
            _ => None,
        }
    }

    /// Converts to `Value::Reference`: a reference stays as it is, any other value becomes a
    /// reference to its hash code.
    pub fn to_ref(&self) -> (r: Value)
        ensures
            r@ is Reference,
            self@ is Reference ==> r@ == self@,
            !(self@ is Reference) ==> r@ == ValueModel::Reference(
                DefaultHasher::spec_finish(value_writes(self@)),
            ),
    {
        Value::Reference(
            match self {
                Value::Reference(r) => *r,
                _ => {
                    let mut state = DefaultHasher::new();
                    self.write_hash(&mut state);
                    proof {
                        assert(state@ =~= value_writes(self@));
                    }
                    state.finish()
                },
            },
        )
    }

    /// Writes this value into `state`, as its `Hash` implementation does: the fields of the
    /// variant, without the variant itself.
    pub fn write_hash(&self, state: &mut DefaultHasher)
        ensures
            final(state)@ == old(state)@ + value_writes(self@),
    {
        match self {
            Value::Float(f) => {
                write_u32(*f, state);
            },
            Value::Int(i) => {
                write_i32(*i, state);
            },
            Value::Bool(b) => {
                let byte: [u8; 1] = [if *b {
                    1u8
                } else {
                    0u8
                }];
                state.write(&byte);
                assert(byte@ =~= seq![bool_byte(*b)]);
            },
            Value::FloatRange(f, fm, fmx) => {
                write_u32(*f, state);
                write_u32(*fm, state);
                write_u32(*fmx, state);
            },
            Value::IntRange(i, im, imx) => {
                write_i32(*i, state);
                write_i32(*im, state);
                write_i32(*imx, state);
            },
            Value::TextBuffer(txt) => {
                write_str(txt.as_str(), state);
            },
            Value::Empty => {},
            Value::IntPair(i1, i2) => {
                write_i32(*i1, state);
                write_i32(*i2, state);
            },
            Value::FloatPair(f1, f2) => {
                write_u32(*f1, state);
                write_u32(*f2, state);
            },
            Value::BinaryVector(v) => {
                write_u64(v.len() as u64, state);
                state.write(v.as_slice());
            },
            Value::Reference(r) => {
                write_u64(*r, state);
            },
            Value::Symbol(s) => {
                write_str(s.as_str(), state);
            },
            Value::Complex(c) => {
                hash_text_set(c, state);
            },
        }
        proof {
            assert(final(state)@ =~= old(state)@ + value_writes(self@));
        }
    }
}

/// The byte a bool writes when hashed.
pub open spec fn bool_byte(b: bool) -> u8 {
    if b {
        1
    } else {
        0
    }
}

/// The little-endian bytes of a `u32`.
pub open spec fn u32_bytes(x: u32) -> Seq<u8> {
    seq![(x & 0xff) as u8, ((x >> 8u32) & 0xff) as u8, ((x >> 16u32) & 0xff) as u8, ((x >> 24u32) & 0xff) as u8]
}

/// The little-endian bytes of a `u64`.
pub open spec fn u64_bytes(x: u64) -> Seq<u8> {
    seq![
        (x & 0xff) as u8,
        ((x >> 8u64) & 0xff) as u8,
        ((x >> 16u64) & 0xff) as u8,
        ((x >> 24u64) & 0xff) as u8,
        ((x >> 32u64) & 0xff) as u8,
        ((x >> 40u64) & 0xff) as u8,
        ((x >> 48u64) & 0xff) as u8,
        ((x >> 56u64) & 0xff) as u8,
    ]
}

/// What hashing a value writes: the fields of its variant in order, each integer as its
/// little-endian bytes, each text as its bytes then `0xff`, a byte vector as its length (eight
/// bytes) then its bytes, and a set of strings as hashing the set writes. This is the byte
/// layout of std's `Hash` on a 64-bit little-endian target.
pub open spec fn value_writes(v: ValueModel) -> Seq<Seq<u8>> {
    match v {
        ValueModel::Float(f) => seq![u32_bytes(f)],
        ValueModel::Int(i) => seq![u32_bytes(i as u32)],
        ValueModel::Bool(b) => seq![seq![bool_byte(b)]],
        ValueModel::FloatRange(a, b, c) => seq![u32_bytes(a), u32_bytes(b), u32_bytes(c)],
        ValueModel::IntRange(a, b, c) => seq![
            u32_bytes(a as u32),
            u32_bytes(b as u32),
            u32_bytes(c as u32),
        ],
        ValueModel::TextBuffer(t) => text_writes(vstd::utf8::encode_utf8(t)),
        ValueModel::Empty => seq![],
        ValueModel::IntPair(a, b) => seq![u32_bytes(a as u32), u32_bytes(b as u32)],
        ValueModel::FloatPair(a, b) => seq![u32_bytes(a), u32_bytes(b)],
        ValueModel::BinaryVector(bytes) => seq![u64_bytes(bytes.len() as u64), bytes],
        ValueModel::Reference(r) => seq![u64_bytes(r)],
        ValueModel::Symbol(s) => text_writes(vstd::utf8::encode_utf8(s)),
        ValueModel::Complex(c) => text_set_writes(c),
    }
}

/// The byte strings that hashing a set of strings writes into a hasher.
pub uninterp spec fn text_set_writes(s: Set<String>) -> Seq<Seq<u8>>;

/// Hashes `set` into `state` with `<BTreeSet<String> as Hash>::hash`. What it writes is named,
/// not spelled out: it is determined by the strings the set holds.
#[verifier::external_body]
fn hash_text_set(set: &BTreeSet<String>, state: &mut DefaultHasher)
    ensures
        final(state)@ == old(state)@ + text_set_writes(set@),
{
    set.hash(state)
}

fn write_u32(x: u32, state: &mut DefaultHasher)
    ensures
        final(state)@ == old(state)@.push(u32_bytes(x)),
{
    let bytes: [u8; 4] = [
        (x & 0xff) as u8,
        ((x >> 8u32) & 0xff) as u8,
        ((x >> 16u32) & 0xff) as u8,
        ((x >> 24u32) & 0xff) as u8,
    ];
    state.write(&bytes);
    assert(bytes@ =~= u32_bytes(x));
}

fn write_i32(x: i32, state: &mut DefaultHasher)
    ensures
        final(state)@ == old(state)@.push(u32_bytes(x as u32)),
{
    write_u32(x as u32, state);
}

fn write_u64(x: u64, state: &mut DefaultHasher)
    ensures
        final(state)@ == old(state)@.push(u64_bytes(x)),
{
    let bytes: [u8; 8] = [
        (x & 0xff) as u8,
        ((x >> 8u64) & 0xff) as u8,
        ((x >> 16u64) & 0xff) as u8,
        ((x >> 24u64) & 0xff) as u8,
        ((x >> 32u64) & 0xff) as u8,
        ((x >> 40u64) & 0xff) as u8,
        ((x >> 48u64) & 0xff) as u8,
        ((x >> 56u64) & 0xff) as u8,
    ];
    state.write(&bytes);
    assert(bytes@ =~= u64_bytes(x));
}

fn write_str(text: &str, state: &mut DefaultHasher)
    ensures
        final(state)@ == old(state)@ + text_writes(vstd::utf8::encode_utf8(text@)),
{
    state.write(text.as_bytes());
    let end: [u8; 1] = [0xffu8];
    state.write(&end);
    assert(end@ =~= seq![0xffu8]);
    assert(final(state)@ =~= old(state)@ + text_writes(vstd::utf8::encode_utf8(text@)));
}

impl From<bool> for Value {
    fn from(b: bool) -> (r: Self)
        ensures
            r@ == ValueModel::Bool(b),
    {
        Value::Bool(b)
    }
}

impl FromSpecImpl<bool> for Value {
    open spec fn obeys_from_spec() -> bool {
        true
    }

    open spec fn from_spec(b: bool) -> Value {
        Value::Bool(b)
    }
}

impl From<BTreeSet<String>> for Value {
    fn from(b: BTreeSet<String>) -> (r: Self)
        ensures
            r@ == ValueModel::Complex(b@),
    {
        Value::Complex(b)
    }
}

impl FromSpecImpl<BTreeSet<String>> for Value {
    open spec fn obeys_from_spec() -> bool {
        true
    }

    open spec fn from_spec(b: BTreeSet<String>) -> Value {
        Value::Complex(b)
    }
}

impl From<&'static str> for Value {
    /// Symbols are typically declared in code.
    fn from(s: &'static str) -> (r: Self)
        ensures
            r@ == ValueModel::Symbol(s@),
    {
        Value::Symbol(s.to_owned())
    }
}

impl FromSpecImpl<&'static str> for Value {
    /// The symbol holds a copy of the text, equal to it by its characters; since two strings
    /// with the same characters are not known to be the same value, `from` is not said to
    /// return exactly this one.
    open spec fn obeys_from_spec() -> bool {
        false
    }

    open spec fn from_spec(s: &'static str) -> Value {
        choose|v: Value| v@ == ValueModel::Symbol(s@)
    }
}

impl From<usize> for Value {
    /// A count becomes an int, wrapping as `as i32` does.
    fn from(c: usize) -> (r: Self)
        ensures
            r@ == ValueModel::Int(#[verifier::truncate] (c as i32)),
    {
        Value::Int(#[verifier::truncate] (c as i32))
    }
}

impl FromSpecImpl<usize> for Value {
    open spec fn obeys_from_spec() -> bool {
        true
    }

    open spec fn from_spec(c: usize) -> Value {
        Value::Int(#[verifier::truncate] (c as i32))
    }
}

proof fn lemma_u32_bytes_injective(x: u32, y: u32)
    requires
        u32_bytes(x) == u32_bytes(y),
    ensures
        x == y,
{
    assert(u32_bytes(x)[0] == u32_bytes(y)[0]);
    assert(u32_bytes(x)[1] == u32_bytes(y)[1]);
    assert(u32_bytes(x)[2] == u32_bytes(y)[2]);
    assert(u32_bytes(x)[3] == u32_bytes(y)[3]);
    assert(x == y) by (bit_vector)
        requires
            (x & 0xff) as u8 == (y & 0xff) as u8,
            ((x >> 8u32) & 0xff) as u8 == ((y >> 8u32) & 0xff) as u8,
            ((x >> 16u32) & 0xff) as u8 == ((y >> 16u32) & 0xff) as u8,
            ((x >> 24u32) & 0xff) as u8 == ((y >> 24u32) & 0xff) as u8,
    ;
}

proof fn lemma_i32_bytes_injective(x: i32, y: i32)
    requires
        u32_bytes(x as u32) == u32_bytes(y as u32),
    ensures
        x == y,
{
    lemma_u32_bytes_injective(x as u32, y as u32);
    assert(x == y) by (bit_vector)
        requires
            x as u32 == y as u32,
    ;
}

proof fn lemma_u64_bytes_injective(x: u64, y: u64)
    requires
        u64_bytes(x) == u64_bytes(y),
    ensures
        x == y,
{
    assert(u64_bytes(x)[0] == u64_bytes(y)[0]);
    assert(u64_bytes(x)[1] == u64_bytes(y)[1]);
    assert(u64_bytes(x)[2] == u64_bytes(y)[2]);
    assert(u64_bytes(x)[3] == u64_bytes(y)[3]);
    assert(u64_bytes(x)[4] == u64_bytes(y)[4]);
    assert(u64_bytes(x)[5] == u64_bytes(y)[5]);
    assert(u64_bytes(x)[6] == u64_bytes(y)[6]);
    assert(u64_bytes(x)[7] == u64_bytes(y)[7]);
    assert(x == y) by (bit_vector)
        requires
            (x & 0xff) as u8 == (y & 0xff) as u8,
            ((x >> 8u64) & 0xff) as u8 == ((y >> 8u64) & 0xff) as u8,
            ((x >> 16u64) & 0xff) as u8 == ((y >> 16u64) & 0xff) as u8,
            ((x >> 24u64) & 0xff) as u8 == ((y >> 24u64) & 0xff) as u8,
            ((x >> 32u64) & 0xff) as u8 == ((y >> 32u64) & 0xff) as u8,
            ((x >> 40u64) & 0xff) as u8 == ((y >> 40u64) & 0xff) as u8,
            ((x >> 48u64) & 0xff) as u8 == ((y >> 48u64) & 0xff) as u8,
            ((x >> 56u64) & 0xff) as u8 == ((y >> 56u64) & 0xff) as u8,
    ;
}

/// Hashing a value covers every field of its variant: two values of the same variant (a set of
/// strings aside) that write the same byte strings hold the same fields. So their references
/// differ whenever their fields do, unless `DefaultHasher` maps two different byte strings to
/// one code.
pub proof fn lemma_value_writes_cover_every_field(a: ValueModel, b: ValueModel)
    requires
        value_writes(a) == value_writes(b),
    ensures
        match (a, b) {
            (ValueModel::Bool(x), ValueModel::Bool(y)) => x == y,
            (ValueModel::TextBuffer(x), ValueModel::TextBuffer(y)) => x == y,
            (ValueModel::Int(x), ValueModel::Int(y)) => x == y,
            (ValueModel::IntPair(x1, x2), ValueModel::IntPair(y1, y2)) => x1 == y1 && x2 == y2,
            (ValueModel::IntRange(x1, x2, x3), ValueModel::IntRange(y1, y2, y3)) => x1 == y1 && x2
                == y2 && x3 == y3,
            (ValueModel::Float(x), ValueModel::Float(y)) => x == y,
            (ValueModel::FloatPair(x1, x2), ValueModel::FloatPair(y1, y2)) => x1 == y1 && x2 == y2,
            (ValueModel::FloatRange(x1, x2, x3), ValueModel::FloatRange(y1, y2, y3)) => x1 == y1
                && x2 == y2 && x3 == y3,
            (ValueModel::BinaryVector(x), ValueModel::BinaryVector(y)) => x == y,
            (ValueModel::Reference(x), ValueModel::Reference(y)) => x == y,
            (ValueModel::Symbol(x), ValueModel::Symbol(y)) => x == y,
            _ => true,
        },
{
    broadcast use vstd::utf8::encode_utf8_decode_utf8;

    let wa = value_writes(a);
    let wb = value_writes(b);
    match (a, b) {
        (ValueModel::Bool(x), ValueModel::Bool(y)) => {
            assert(wa[0][0] == wb[0][0]);
        },
        (ValueModel::TextBuffer(x), ValueModel::TextBuffer(y)) => {
            assert(wa[0] == wb[0]);
            assert(vstd::utf8::decode_utf8(vstd::utf8::encode_utf8(x)) == x);
            assert(vstd::utf8::decode_utf8(vstd::utf8::encode_utf8(y)) == y);
        },
        (ValueModel::Symbol(x), ValueModel::Symbol(y)) => {
            assert(wa[0] == wb[0]);
            assert(vstd::utf8::decode_utf8(vstd::utf8::encode_utf8(x)) == x);
            assert(vstd::utf8::decode_utf8(vstd::utf8::encode_utf8(y)) == y);
        },
        (ValueModel::Int(x), ValueModel::Int(y)) => {
            assert(wa[0] == wb[0]);
            lemma_i32_bytes_injective(x, y);
        },
        (ValueModel::IntPair(x1, x2), ValueModel::IntPair(y1, y2)) => {
            assert(wa[0] == wb[0]);
            assert(wa[1] == wb[1]);
            lemma_i32_bytes_injective(x1, y1);
            lemma_i32_bytes_injective(x2, y2);
        },
        (ValueModel::IntRange(x1, x2, x3), ValueModel::IntRange(y1, y2, y3)) => {
            assert(wa[0] == wb[0]);
            assert(wa[1] == wb[1]);
            assert(wa[2] == wb[2]);
            lemma_i32_bytes_injective(x1, y1);
            lemma_i32_bytes_injective(x2, y2);
            lemma_i32_bytes_injective(x3, y3);
        },
        (ValueModel::Float(x), ValueModel::Float(y)) => {
            assert(wa[0] == wb[0]);
            lemma_u32_bytes_injective(x, y);
        },
        (ValueModel::FloatPair(x1, x2), ValueModel::FloatPair(y1, y2)) => {
            assert(wa[0] == wb[0]);
            assert(wa[1] == wb[1]);
            lemma_u32_bytes_injective(x1, y1);
            lemma_u32_bytes_injective(x2, y2);
        },
        (ValueModel::FloatRange(x1, x2, x3), ValueModel::FloatRange(y1, y2, y3)) => {
            assert(wa[0] == wb[0]);
            assert(wa[1] == wb[1]);
            assert(wa[2] == wb[2]);
            lemma_u32_bytes_injective(x1, y1);
            lemma_u32_bytes_injective(x2, y2);
            lemma_u32_bytes_injective(x3, y3);
        },
        (ValueModel::BinaryVector(x), ValueModel::BinaryVector(y)) => {
            assert(wa[1] == wb[1]);
        },
        (ValueModel::Reference(x), ValueModel::Reference(y)) => {
            assert(wa[0] == wb[0]);
            lemma_u64_bytes_injective(x, y);
        },
        _ => {},
    }
}

impl StoreValue for u64 {
    /// Hashing an integer writes its eight little-endian bytes.
    open spec fn hash_writes(&self) -> Seq<Seq<u8>> {
        seq![u64_bytes(*self)]
    }

    fn write_hash(&self, state: &mut DefaultHasher) {
        write_u64(*self, state);
        assert(final(state)@ =~= old(state)@ + self.hash_writes());
    }

    fn duplicate(&self) -> (r: Self) {
        *self
    }
}

} // verus!
