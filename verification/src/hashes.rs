//! SHA-256 (through the `sha2` crate) and the domain-separated hash
//! combinators of the certified hash tree: every inner node, labeled node,
//! leaf and the empty tree hash under a distinct one-byte-length-prefixed
//! domain separator, so a certificate for one commitment can never vouch
//! for a value of another shape.

use vstd::prelude::*;

verus! {

/// The SHA-256 digest of a byte sequence, named but never written out:
/// every statement about concrete digest values lives in executable tests.
pub uninterp spec fn sha256_of(b: Seq<u8>) -> Seq<u8>;

/// Relies on `sha2::Sha256::digest`: the digest is 32 bytes and depends on
/// the input bytes alone.
#[verifier::external_body]
pub fn sha256(data: &[u8]) -> (r: Vec<u8>)
    ensures
        r@ == sha256_of(data@),
        r@.len() == 32,
{
    <sha2::Sha256 as sha2::Digest>::digest(data).to_vec()
}

/// Domain separator `"ic-hashtree-empty"`, prefixed with its length.
pub open spec fn sep_empty() -> Seq<u8> {
    seq![17u8, 105u8, 99u8, 45u8, 104u8, 97u8, 115u8, 104u8, 116u8, 114u8, 101u8, 101u8, 45u8, 101u8, 109u8, 112u8, 116u8, 121u8]
}

/// Domain separator `"ic-hashtree-fork"`, prefixed with its length.
pub open spec fn sep_fork() -> Seq<u8> {
    seq![16u8, 105u8, 99u8, 45u8, 104u8, 97u8, 115u8, 104u8, 116u8, 114u8, 101u8, 101u8, 45u8, 102u8, 111u8, 114u8, 107u8]
}

/// Domain separator `"ic-hashtree-leaf"`, prefixed with its length.
pub open spec fn sep_leaf() -> Seq<u8> {
    seq![16u8, 105u8, 99u8, 45u8, 104u8, 97u8, 115u8, 104u8, 116u8, 114u8, 101u8, 101u8, 45u8, 108u8, 101u8, 97u8, 102u8]
}

/// Domain separator `"ic-hashtree-labeled"`, prefixed with its length.
pub open spec fn sep_labeled() -> Seq<u8> {
    seq![19u8, 105u8, 99u8, 45u8, 104u8, 97u8, 115u8, 104u8, 116u8, 114u8, 101u8, 101u8, 45u8, 108u8, 97u8, 98u8, 101u8, 108u8, 101u8, 100u8]
}

/// Hash of the empty tree.
pub open spec fn empty_hash() -> Seq<u8> {
    sha256_of(sep_empty())
}

/// Hash of an inner node over two subtree hashes.
pub open spec fn fork_hash(l: Seq<u8>, r: Seq<u8>) -> Seq<u8> {
    sha256_of(sep_fork() + l + r)
}

/// Hash of a labeled subtree.
pub open spec fn labeled_hash(label: Seq<u8>, h: Seq<u8>) -> Seq<u8> {
    sha256_of(sep_labeled() + label + h)
}

/// Hash of a leaf holding raw content bytes.
pub open spec fn leaf_hash(data: Seq<u8>) -> Seq<u8> {
    sha256_of(sep_leaf() + data)
}

fn push_sep_empty(out: &mut Vec<u8>)
    ensures
        final(out)@ == old(out)@ + sep_empty(),
{
    out.push(17);
    out.push(105);
    out.push(99);
    out.push(45);
    out.push(104);
    out.push(97);
    out.push(115);
    out.push(104);
    out.push(116);
    out.push(114);
    out.push(101);
    out.push(101);
    out.push(45);
    out.push(101);
    out.push(109);
    out.push(112);
    out.push(116);
    out.push(121);
    assert(out@ =~= old(out)@ + sep_empty());
}

fn push_sep_fork(out: &mut Vec<u8>)
    ensures
        final(out)@ == old(out)@ + sep_fork(),
{
    out.push(16);
    out.push(105);
    out.push(99);
    out.push(45);
    out.push(104);
    out.push(97);
    out.push(115);
    out.push(104);
    out.push(116);
    out.push(114);
    out.push(101);
    out.push(101);
    out.push(45);
    out.push(102);
    out.push(111);
    out.push(114);
    out.push(107);
    assert(out@ =~= old(out)@ + sep_fork());
}

fn push_sep_leaf(out: &mut Vec<u8>)
    ensures
        final(out)@ == old(out)@ + sep_leaf(),
{
    out.push(16);
    out.push(105);
    out.push(99);
    out.push(45);
    out.push(104);
    out.push(97);
    out.push(115);
    out.push(104);
    out.push(116);
    out.push(114);
    out.push(101);
    out.push(101);
    out.push(45);
    out.push(108);
    out.push(101);
    out.push(97);
    out.push(102);
    assert(out@ =~= old(out)@ + sep_leaf());
}

fn push_sep_labeled(out: &mut Vec<u8>)
    ensures
        final(out)@ == old(out)@ + sep_labeled(),
{
    out.push(19);
    out.push(105);
    out.push(99);
    out.push(45);
    out.push(104);
    out.push(97);
    out.push(115);
    out.push(104);
    out.push(116);
    out.push(114);
    out.push(101);
    out.push(101);
    out.push(45);
    out.push(108);
    out.push(97);
    out.push(98);
    out.push(101);
    out.push(108);
    out.push(101);
    out.push(100);
    assert(out@ =~= old(out)@ + sep_labeled());
}

pub fn empty_hash_exec() -> (r: Vec<u8>)
    ensures
        r@ == empty_hash(),
        r@.len() == 32,
{
    let mut v: Vec<u8> = Vec::new();
    push_sep_empty(&mut v);
    assert(v@ =~= sep_empty());
    sha256(v.as_slice())
}

pub fn fork_hash_exec(l: &[u8], r: &[u8]) -> (h: Vec<u8>)
    ensures
        h@ == fork_hash(l@, r@),
        h@.len() == 32,
{
    let mut v: Vec<u8> = Vec::new();
    push_sep_fork(&mut v);
    v.extend_from_slice(l);
    v.extend_from_slice(r);
    assert(v@ =~= sep_fork() + l@ + r@);
    sha256(v.as_slice())
}

pub fn labeled_hash_exec(label: &[u8], h: &[u8]) -> (r: Vec<u8>)
    ensures
        r@ == labeled_hash(label@, h@),
        r@.len() == 32,
{
    let mut v: Vec<u8> = Vec::new();
    push_sep_labeled(&mut v);
    v.extend_from_slice(label);
    v.extend_from_slice(h);
    assert(v@ =~= sep_labeled() + label@ + h@);
    sha256(v.as_slice())
}

pub fn leaf_hash_exec(data: &[u8]) -> (r: Vec<u8>)
    ensures
        r@ == leaf_hash(data@),
        r@.len() == 32,
{
    let mut v: Vec<u8> = Vec::new();
    push_sep_leaf(&mut v);
    v.extend_from_slice(data);
    assert(v@ =~= sep_leaf() + data@);
    sha256(v.as_slice())
}

} // verus!
