use crate::store::StoreValue;
use std::collections::hash_map::DefaultHasher;
use std::hash::Hasher;
use vstd::prelude::*;
use vstd::std_specs::hash::DefaultHasherAdditionalSpecFns;
use vstd::string::StringSliceAdditionalSpecFns;

verus! {

/// A node of a filesystem graph.
#[derive(Debug, Clone, Hash, PartialEq, Eq, PartialOrd, Ord)]
pub enum FSNode {
    Root,
    Volume(&'static str),
    Mount(String),
}

impl Default for FSNode {
    /// The default volume, `.default`.
    fn default() -> (r: Self)
        ensures
            r == FSNode::Volume(".default"),
    {
        FSNode::Volume(".default")
    }
}

/// The eight little-endian bytes of the discriminant `d`, as the derived hash of an enum writes
/// it on a 64-bit little-endian target.
pub open spec fn discriminant_bytes(d: u8) -> Seq<u8> {
    seq![d, 0u8, 0u8, 0u8, 0u8, 0u8, 0u8, 0u8]
}

/// What hashing a string writes: its bytes, then `0xff`.
pub open spec fn text_writes(bytes: Seq<u8>) -> Seq<Seq<u8>> {
    seq![bytes, seq![0xffu8]]
}

fn write_discriminant(d: u8, state: &mut DefaultHasher)
    ensures
        final(state)@ == old(state)@.push(discriminant_bytes(d)),
{
    let bytes: [u8; 8] = [d, 0, 0, 0, 0, 0, 0, 0];
    state.write(&bytes);
    assert(bytes@ =~= discriminant_bytes(d));
}

fn write_text(text: &str, state: &mut DefaultHasher)
    ensures
        final(state)@ == old(state)@ + text_writes(vstd::utf8::encode_utf8(text@)),
{
    state.write(text.as_bytes());
    let end: [u8; 1] = [0xffu8];
    state.write(&end);
    assert(end@ =~= seq![0xffu8]);
    assert(final(state)@ =~= old(state)@ + text_writes(vstd::utf8::encode_utf8(text@)));
}

impl StoreValue for FSNode {
    /// The discriminant of the variant, then the text it holds, if any.
    open spec fn hash_writes(&self) -> Seq<Seq<u8>> {
        match self {
            FSNode::Root => seq![discriminant_bytes(0)],
            FSNode::Volume(s) => seq![discriminant_bytes(1)] + text_writes(vstd::utf8::encode_utf8((*s)@)),
            FSNode::Mount(s) => seq![discriminant_bytes(2)] + text_writes(vstd::utf8::encode_utf8(s@)),
        }
    }

    fn write_hash(&self, state: &mut DefaultHasher) {
        match self {
            FSNode::Root => {
                write_discriminant(0, state);
                assert(final(state)@ =~= old(state)@ + self.hash_writes());
            },
            FSNode::Volume(s) => {
                write_discriminant(1, state);
                write_text(s, state);
                assert(final(state)@ =~= old(state)@ + self.hash_writes());
            },
            FSNode::Mount(s) => {
                write_discriminant(2, state);
                write_text(s.as_str(), state);
                assert(final(state)@ =~= old(state)@ + self.hash_writes());
            },
        }
    }

    fn duplicate(&self) -> (r: Self) {
        match self {
            FSNode::Root => FSNode::Root,
            FSNode::Volume(s) => FSNode::Volume(s),
            FSNode::Mount(s) => FSNode::Mount(s.clone()),
        }
    }
}

/// Hashing tells filesystem nodes apart: two nodes that write the same byte strings are the same
/// variant holding the same text. So the hash codes of two different nodes differ unless
/// `DefaultHasher` maps two different byte strings to one code.
pub proof fn lemma_fsnode_writes_tell_nodes_apart(a: FSNode, b: FSNode)
    requires
        a.hash_writes() == b.hash_writes(),
    ensures
        match (a, b) {
            (FSNode::Root, FSNode::Root) => true,
            (FSNode::Volume(x), FSNode::Volume(y)) => x@ == y@,
            (FSNode::Mount(x), FSNode::Mount(y)) => x@ == y@,
            _ => false,
        },
{
    broadcast use vstd::utf8::encode_utf8_decode_utf8;
    assert(a.hash_writes()[0] == b.hash_writes()[0]);
    assert(a.hash_writes()[0][0] == b.hash_writes()[0][0]);
    match (a, b) {
        (FSNode::Volume(x), FSNode::Volume(y)) => {
            assert(a.hash_writes()[1] == b.hash_writes()[1]);
            assert(vstd::utf8::decode_utf8(vstd::utf8::encode_utf8(x@)) == x@);
            assert(vstd::utf8::decode_utf8(vstd::utf8::encode_utf8(y@)) == y@);
        },
        (FSNode::Mount(x), FSNode::Mount(y)) => {
            assert(a.hash_writes()[1] == b.hash_writes()[1]);
            assert(vstd::utf8::decode_utf8(vstd::utf8::encode_utf8(x@)) == x@);
            assert(vstd::utf8::decode_utf8(vstd::utf8::encode_utf8(y@)) == y@);
        },
        _ => {},
    }
}

} // verus!
