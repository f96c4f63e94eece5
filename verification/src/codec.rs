//! Canonical wire encoding of witness subtrees: a self-describing binary
//! encoding (a tag followed by nested arrays of small integers and byte
//! strings) whose bytes are a pure function of the witness shape, so that
//! independent verifiers always serialize the same logical witness to the
//! same bytes. The final header field carries these bytes in base64.

use vstd::prelude::*;

use crate::tree::{shape_of, WitnessNode, WitnessShape};

verus! {

/// Header of a major-type item: the major bits plus the length, in the
/// shortest of the one/two/three/five/nine-byte forms.
pub open spec fn cbor_header(base: u8, n: nat) -> Seq<u8> {
    if n < 24 {
        seq![(base + n) as u8]
    } else if n < 256 {
        seq![(base + 24) as u8, n as u8]
    } else if n < 65536 {
        seq![(base + 25) as u8, (n / 256) as u8, (n % 256) as u8]
    } else if n < 4294967296 {
        seq![
            (base + 26) as u8,
            (n / 16777216 % 256) as u8,
            (n / 65536 % 256) as u8,
            (n / 256 % 256) as u8,
            (n % 256) as u8,
        ]
    } else {
        seq![
            (base + 27) as u8,
            (n / 72057594037927936 % 256) as u8,
            (n / 281474976710656 % 256) as u8,
            (n / 1099511627776 % 256) as u8,
            (n / 4294967296 % 256) as u8,
            (n / 16777216 % 256) as u8,
            (n / 65536 % 256) as u8,
            (n / 256 % 256) as u8,
            (n % 256) as u8,
        ]
    }
}

/// A byte string: its header followed by the bytes themselves.
pub open spec fn cbor_bytes(b: Seq<u8>) -> Seq<u8> {
    cbor_header(0x40, b.len()) + b
}

/// The canonical encoding of a witness shape. Every node is an array whose
/// first element tags the variant.
pub open spec fn cbor_of(s: WitnessShape) -> Seq<u8>
    decreases s,
{
    match s {
        WitnessShape::Empty => seq![0x81u8, 0x00u8],
        WitnessShape::Fork(l, r) => seq![0x83u8, 0x01u8] + cbor_of(*l) + cbor_of(*r),
        WitnessShape::Labeled(lab, t) => seq![0x83u8, 0x02u8] + cbor_bytes(lab) + cbor_of(*t),
        WitnessShape::Leaf(d) => seq![0x82u8, 0x03u8] + cbor_bytes(d),
        WitnessShape::Pruned(h) => seq![0x82u8, 0x04u8] + cbor_bytes(h),
    }
}

/// The full wire form: the self-describe tag, then the encoded witness.
pub open spec fn wire_of(s: WitnessShape) -> Seq<u8> {
    seq![0xd9u8, 0xd9u8, 0xf7u8] + cbor_of(s)
}

/// Appends the header for `n` items or bytes under the given major bits.
fn push_cbor_header(out: &mut Vec<u8>, base: u8, n: usize)
    requires
        base == 0x40,
    ensures
        final(out)@ == old(out)@ + cbor_header(base, n as nat),
{
    if n < 24 {
        out.push(base + n as u8);
        assert(out@ =~= old(out)@ + cbor_header(base, n as nat));
    } else if n < 256 {
        out.push(base + 24);
        out.push(n as u8);
        assert(out@ =~= old(out)@ + cbor_header(base, n as nat));
    } else if n < 65536 {
        out.push(base + 25);
        out.push((n / 256) as u8);
        out.push((n % 256) as u8);
        assert(out@ =~= old(out)@ + cbor_header(base, n as nat));
    } else if (n as u64) < 4294967296u64 {
        out.push(base + 26);
        out.push((n / 16777216 % 256) as u8);
        out.push((n / 65536 % 256) as u8);
        out.push((n / 256 % 256) as u8);
        out.push((n % 256) as u8);
        assert(out@ =~= old(out)@ + cbor_header(base, n as nat));
    } else {
        out.push(base + 27);
        out.push((n as u64 / 72057594037927936u64 % 256) as u8);
        out.push((n as u64 / 281474976710656u64 % 256) as u8);
        out.push((n as u64 / 1099511627776u64 % 256) as u8);
        out.push((n as u64 / 4294967296u64 % 256) as u8);
        out.push((n / 16777216 % 256) as u8);
        out.push((n / 65536 % 256) as u8);
        out.push((n / 256 % 256) as u8);
        out.push((n % 256) as u8);
        assert(out@ =~= old(out)@ + cbor_header(base, n as nat));
    }
}

/// Appends a byte string item.
fn push_cbor_bytes(out: &mut Vec<u8>, b: &[u8])
    ensures
        final(out)@ == old(out)@ + cbor_bytes(b@),
{
    push_cbor_header(out, 0x40, b.len());
    out.extend_from_slice(b);
    assert(out@ =~= old(out)@ + cbor_bytes(b@));
}

/// Appends the canonical encoding of a witness.
fn push_cbor_witness(out: &mut Vec<u8>, t: &WitnessNode)
    ensures
        final(out)@ == old(out)@ + cbor_of(shape_of(*t)),
    decreases *t,
{
    match t {
        WitnessNode::Empty => {
            out.push(0x81);
            out.push(0x00);
            assert(out@ =~= old(out)@ + cbor_of(shape_of(*t)));
        },
        WitnessNode::Fork(l, r) => {
            out.push(0x83);
            out.push(0x01);
            push_cbor_witness(out, l);
            push_cbor_witness(out, r);
            proof {
                let sl = shape_of(**l);
                let sr = shape_of(**r);
                assert(cbor_of(shape_of(*t)) == seq![0x83u8, 0x01u8] + cbor_of(sl) + cbor_of(sr));
                assert(out@ =~= old(out)@ + cbor_of(shape_of(*t)));
            }
        },
        WitnessNode::Labeled(lab, inner) => {
            out.push(0x83);
            out.push(0x02);
            push_cbor_bytes(out, lab.as_slice());
            push_cbor_witness(out, inner);
            proof {
                let si = shape_of(**inner);
                assert(cbor_of(shape_of(*t)) == seq![0x83u8, 0x02u8] + cbor_bytes(lab@) + cbor_of(si));
                assert(out@ =~= old(out)@ + cbor_of(shape_of(*t)));
            }
        },
        WitnessNode::Leaf(d) => {
            out.push(0x82);
            out.push(0x03);
            push_cbor_bytes(out, d.as_slice());
            assert(out@ =~= old(out)@ + cbor_of(shape_of(*t)));
        },
        WitnessNode::Pruned(h) => {
            out.push(0x82);
            out.push(0x04);
            push_cbor_bytes(out, h.as_slice());
            assert(out@ =~= old(out)@ + cbor_of(shape_of(*t)));
        },
    }
}

/// The complete canonical wire bytes for a witness.
pub fn encode_witness(t: &WitnessNode) -> (r: Vec<u8>)
    ensures
        r@ == wire_of(shape_of(*t)),
{
    let mut out: Vec<u8> = Vec::new();
    out.push(0xd9);
    out.push(0xd9);
    out.push(0xf7);
    push_cbor_witness(&mut out, t);
    assert(out@ =~= wire_of(shape_of(*t)));
    out
}

/// The base64 form of a byte sequence, named but never written out; the
/// facts beside it are the documented length and alphabet.
pub uninterp spec fn base64_of(b: Seq<u8>) -> Seq<u8>;

/// A standard-alphabet base64 byte: letters, digits, `+`, `/`, or the
/// padding `=`. In particular never a colon.
pub open spec fn is_base64_byte(c: u8) -> bool {
    (65 <= c <= 90) || (97 <= c <= 122) || (48 <= c <= 57) || c == 43 || c == 47 || c == 61
}

/// Relies on `base64::encode`: standard alphabet with `=` padding, four
/// output bytes for every three input bytes, depending on the input alone.
#[verifier::external_body]
pub fn base64_encode(b: &[u8]) -> (r: Vec<u8>)
    ensures
        r@ == base64_of(b@),
        r@.len() == 4 * ((b@.len() + 2) / 3),
        forall|i: int| 0 <= i < r@.len() ==> is_base64_byte(#[trigger] r@[i]),
{
    base64::encode(b).into_bytes()
}

} // verus!
