//! The certification protocol: keeping the hash tree in step with the
//! registry after a mutation, forming the root commitment, and assembling
//! a certified response (security headers, certification header, body) for
//! one read request.

use vstd::prelude::*;

use crate::codec::{
    base64_encode, base64_of, encode_witness, is_base64_byte, wire_of,
};
use crate::hashes::{labeled_hash, labeled_hash_exec, sha256, sha256_of};
use crate::resolver::{
    dec_of, default_part, default_part_index, find_nft, has_nft, nft_at, parse_u64,
    parses_as_u64, resolve_segments, u64_to_dec, Nft, Registry, Resolved, ResolvedSpec,
    resolve_spec,
};
use crate::text::{
    cert_end_bytes, cert_mid_bytes, cert_name_bytes, cert_prefix_bytes, content_type_name_bytes,
    csp_name_bytes, csp_value_bytes, http_assets_label_bytes, invalid_nft_prefix_bytes,
    invalid_part_prefix_bytes, sts_name_bytes, sts_value_bytes, total_prefix_bytes,
    txt_cert_end, txt_cert_mid, txt_cert_name, txt_cert_prefix, txt_content_type_name,
    txt_csp_name, txt_csp_value, txt_http_assets_label, txt_invalid_nft_prefix,
    txt_invalid_part_prefix, txt_sts_name, txt_sts_value, txt_total_prefix,
};
use crate::tree::{
    as_map, lemma_root_determinism, lookup_in, reconstruct, shape_of, subtree_hash, HashTreeMap,
    WitnessNode, WitnessShape,
};

verus! {

// ------------------------------------------------------------------
// Path grammar: query split and the first two segments.
// ------------------------------------------------------------------

/// The bytes before the first occurrence of `stop`.
pub open spec fn prefix_to(stop: u8, s: Seq<u8>) -> Seq<u8>
    decreases s.len(),
{
    if s.len() == 0 {
        Seq::empty()
    } else if s[0] == stop {
        Seq::empty()
    } else {
        seq![s[0]] + prefix_to(stop, s.skip(1))
    }
}

/// The bytes after the first occurrence of `stop`; empty if none occurs.
pub open spec fn tail_after(stop: u8, s: Seq<u8>) -> Seq<u8>
    decreases s.len(),
{
    if s.len() == 0 {
        Seq::empty()
    } else if s[0] == stop {
        s.skip(1)
    } else {
        tail_after(stop, s.skip(1))
    }
}

/// The resource path of a request: the URL up to the query string.
pub open spec fn resource_of(url: Seq<u8>) -> Seq<u8> {
    prefix_to(63, url)
}

/// First path segment of a resource, after its leading slash.
pub open spec fn seg0_of(resource: Seq<u8>) -> Seq<u8> {
    if resource.len() == 0 {
        Seq::empty()
    } else {
        prefix_to(47, resource.skip(1))
    }
}

/// Second path segment of a resource; empty when there is none.
pub open spec fn seg1_of(resource: Seq<u8>) -> Seq<u8> {
    if resource.len() == 0 {
        Seq::empty()
    } else {
        prefix_to(47, tail_after(47, resource.skip(1)))
    }
}

proof fn lemma_prefix_to_take(stop: u8, s: Seq<u8>, k: int)
    requires
        0 <= k <= s.len(),
        forall|j: int| 0 <= j < k ==> s[j] != stop,
        k == s.len() || s[k] == stop,
    ensures
        prefix_to(stop, s) == s.take(k),
    decreases k,
{
    if k == 0 {
        assert(s.take(0) =~= Seq::<u8>::empty());
    } else {
        assert(s[0] != stop);
        assert forall|j: int| 0 <= j < k - 1 implies s.skip(1)[j] != stop by {
            assert(s.skip(1)[j] == s[j + 1]);
        }
        if k < s.len() {
            assert(s.skip(1)[k - 1] == s[k]);
        }
        lemma_prefix_to_take(stop, s.skip(1), k - 1);
        assert(seq![s[0]] + s.skip(1).take(k - 1) =~= s.take(k));
    }
}

proof fn lemma_tail_after_skip(stop: u8, s: Seq<u8>, k: int)
    requires
        0 <= k < s.len(),
        forall|j: int| 0 <= j < k ==> s[j] != stop,
        s[k] == stop,
    ensures
        tail_after(stop, s) == s.skip(k + 1),
    decreases k,
{
    if k == 0 {
    } else {
        assert forall|j: int| 0 <= j < k - 1 implies s.skip(1)[j] != stop by {
            assert(s.skip(1)[j] == s[j + 1]);
        }
        assert(s.skip(1)[k - 1] == s[k]);
        lemma_tail_after_skip(stop, s.skip(1), k - 1);
        assert(s.skip(1).skip(k) =~= s.skip(k + 1));
    }
}

proof fn lemma_tail_after_none(stop: u8, s: Seq<u8>)
    requires
        forall|j: int| 0 <= j < s.len() ==> s[j] != stop,
    ensures
        tail_after(stop, s) == Seq::<u8>::empty(),
    decreases s.len(),
{
    if s.len() > 0 {
        assert forall|j: int| 0 <= j < s.skip(1).len() implies s.skip(1)[j] != stop by {
            assert(s.skip(1)[j] == s[j + 1]);
        }
        lemma_tail_after_none(stop, s.skip(1));
    }
}

/// First index at or after `from` holding `stop`, or the length.
fn scan_to(s: &[u8], from: usize, stop: u8) -> (end: usize)
    requires
        from <= s@.len(),
    ensures
        from <= end <= s@.len(),
        forall|j: int| from <= j < end ==> s@[j] != stop,
        end < s@.len() ==> s@[end as int] == stop,
{
    let mut i = from;
    while i < s.len()
        invariant
            from <= i <= s@.len(),
            forall|j: int| from <= j < i ==> s@[j] != stop,
        decreases s.len() - i,
    {
        if s[i] == stop {
            return i;
        }
        i += 1;
    }
    i
}

/// A fresh copy of `s[a..b]`.
fn copy_range(s: &[u8], a: usize, b: usize) -> (r: Vec<u8>)
    requires
        a <= b <= s@.len(),
    ensures
        r@ == s@.subrange(a as int, b as int),
{
    let mut v: Vec<u8> = Vec::new();
    let mut i = a;
    while i < b
        invariant
            a <= i <= b <= s@.len(),
            v@ == s@.subrange(a as int, i as int),
        decreases b - i,
    {
        v.push(s[i]);
        assert(v@ =~= s@.subrange(a as int, i + 1));
        i += 1;
    }
    v
}

/// The resource path of a URL: everything before the query string.
pub fn resource_part(url: &[u8]) -> (r: Vec<u8>)
    ensures
        r@ == resource_of(url@),
{
    let end = scan_to(url, 0, 63);
    proof {
        lemma_prefix_to_take(63, url@, end as int);
    }
    copy_range(url, 0, end)
}

/// The first two path segments of a resource, raw (still percent-encoded).
pub fn segments(resource: &[u8]) -> (p: (Vec<u8>, Vec<u8>))
    ensures
        p.0@ == seg0_of(resource@),
        p.1@ == seg1_of(resource@),
{
    if resource.len() == 0 {
        let a: Vec<u8> = Vec::new();
        let b: Vec<u8> = Vec::new();
        return (a, b);
    }
    let ghost rest = resource@.skip(1);
    let e1 = scan_to(resource, 1, 47);
    proof {
        assert forall|j: int| 0 <= j < e1 - 1 implies rest[j] != 47 by {
            assert(rest[j] == resource@[j + 1]);
        }
        if e1 < resource@.len() {
            assert(rest[e1 - 1] == resource@[e1 as int]);
        }
        lemma_prefix_to_take(47, rest, e1 - 1);
        assert(rest.take(e1 - 1) =~= resource@.subrange(1, e1 as int));
    }
    let s0 = copy_range(resource, 1, e1);
    if e1 == resource.len() {
        proof {
            lemma_tail_after_none(47, rest);
        }
        let b: Vec<u8> = Vec::new();
        return (s0, b);
    }
    proof {
        lemma_tail_after_skip(47, rest, e1 - 1);
        assert(rest.skip(e1 as int) =~= resource@.skip(e1 + 1));
    }
    let ghost rest2 = resource@.skip(e1 + 1);
    let e2 = scan_to(resource, e1 + 1, 47);
    proof {
        assert forall|j: int| 0 <= j < e2 - (e1 + 1) implies rest2[j] != 47 by {
            assert(rest2[j] == resource@[j + e1 + 1]);
        }
        if e2 < resource@.len() {
            assert(rest2[e2 - (e1 + 1)] == resource@[e2 as int]);
        }
        lemma_prefix_to_take(47, rest2, e2 - (e1 + 1));
        assert(rest2.take(e2 - (e1 + 1)) =~= resource@.subrange(e1 + 1, e2 as int));
    }
    let s1 = copy_range(resource, e1 + 1, e2);
    (s0, s1)
}

// ------------------------------------------------------------------
// Percent decoding, through the outside crate.
// ------------------------------------------------------------------

/// What percent-decoding (followed by checking the result is valid text)
/// makes of a segment; named, since it depends on the bytes alone.
pub uninterp spec fn percent_decoded_of(s: Seq<u8>) -> Option<Seq<u8>>;

/// Plain ASCII with no escape introducer: decoding cannot change it.
pub open spec fn ascii_percent_free(s: Seq<u8>) -> bool {
    forall|i: int| 0 <= i < s.len() ==> #[trigger] s[i] != 37 && s[i] < 128
}

/// Relies on `percent_encoding::percent_decode` and its `decode_utf8`:
/// `%XX` escapes are replaced and the result must be valid text; ASCII
/// input without `%` comes back unchanged.
#[verifier::external_body]
fn percent_decode_segment(seg: &[u8]) -> (r: Option<Vec<u8>>)
    ensures
        percent_decoded_of(seg@) == (match r {
            Some(v) => Some(v@),
            None => None::<Seq<u8>>,
        }),
        ascii_percent_free(seg@) ==> r is Some && r->Some_0@ == seg@,
{
    match percent_encoding::percent_decode(seg).decode_utf8() {
        Ok(text) => Some(text.into_owned().into_bytes()),
        Err(_) => None,
    }
}

// ------------------------------------------------------------------
// Tree maintenance per mutation event.
// ------------------------------------------------------------------

/// The tree path of an item's default rendering.
pub open spec fn path_of_id(id: u64) -> Seq<u8> {
    seq![47u8] + dec_of(id as nat)
}

/// The tree path of one metadata part.
pub open spec fn path_of_part(id: u64, i: int) -> Seq<u8> {
    path_of_id(id) + seq![47u8] + dec_of(i as nat)
}

/// The collection summary path.
pub open spec fn root_path() -> Seq<u8> {
    seq![47u8]
}

/// The collection summary body for `n` items.
pub open spec fn total_text(n: nat) -> Seq<u8> {
    txt_total_prefix() + dec_of(n)
}

/// A sequence of bindings applied to a map, later entries overriding.
pub open spec fn apply_inserts(m: Map<Seq<u8>, Seq<u8>>, l: Seq<(Seq<u8>, Seq<u8>)>) -> Map<
    Seq<u8>,
    Seq<u8>,
>
    decreases l.len(),
{
    if l.len() == 0 {
        m
    } else {
        apply_inserts(m, l.drop_last()).insert(l.last().0, l.last().1)
    }
}

/// Whether some binding in the list covers `k`.
pub open spec fn key_in(l: Seq<(Seq<u8>, Seq<u8>)>, k: Seq<u8>) -> bool {
    exists|i: int| 0 <= i < l.len() && (#[trigger] l[i]).0 == k
}

/// The bindings a mutation of item `id` writes into the tree: one per
/// metadata part, the default alias under the tie-break rule, and the
/// refreshed collection summary.
pub open spec fn commit_list(nfts: Seq<Nft>, id: u64) -> Seq<(Seq<u8>, Seq<u8>)> {
    let parts = nft_at(nfts, id).metadata@;
    Seq::new(parts.len(), |i: int| (path_of_part(id, i), sha256_of(parts[i].data@)))
        + (match default_part_index(parts) {
            Some(i) => seq![(path_of_id(id), sha256_of(parts[i].data@))],
            None => Seq::<(Seq<u8>, Seq<u8>)>::empty(),
        })
        + seq![(root_path(), sha256_of(total_text(nfts.len())))]
}

/// What the tree binds after a mutation of item `id`.
pub open spec fn add_hash_map(m: Map<Seq<u8>, Seq<u8>>, nfts: Seq<Nft>, id: u64) -> Map<
    Seq<u8>,
    Seq<u8>,
> {
    apply_inserts(m, commit_list(nfts, id))
}

/// `/{id}` as bytes.
pub fn path_id_bytes(id: u64) -> (r: Vec<u8>)
    ensures
        r@ == path_of_id(id),
{
    let mut v: Vec<u8> = Vec::new();
    v.push(47);
    let d = u64_to_dec(id);
    v.extend_from_slice(d.as_slice());
    assert(v@ =~= path_of_id(id));
    v
}

/// `/{id}/{i}` as bytes.
fn path_part_bytes(id: u64, i: u64) -> (r: Vec<u8>)
    ensures
        r@ == path_of_part(id, i as int),
{
    let mut v = path_id_bytes(id);
    v.push(47);
    let d = u64_to_dec(i);
    v.extend_from_slice(d.as_slice());
    assert(v@ =~= path_of_part(id, i as int));
    v
}

/// Re-hashes every path touched by a change to item `tkid` — each part,
/// the `/{id}` default alias under the resolver's tie-break, and the collection
/// summary — and returns the root commitment to publish: the domain label
/// combined with the new root hash.
pub fn add_hash(reg: &Registry, tree: &mut HashTreeMap, tkid: u64) -> (commitment: Vec<u8>)
    requires
        reg.wf(),
        old(tree).wf(),
        has_nft(reg.nfts@, tkid),
    ensures
        final(tree).wf(),
        as_map(final(tree).model()) == add_hash_map(as_map(old(tree).model()), reg.nfts@, tkid),
        commitment@ == labeled_hash(
            txt_http_assets_label(),
            subtree_hash(final(tree).model()),
        ),
        commitment@.len() == 32,
{
    let ghost m0 = as_map(old(tree).model());
    let ghost l = commit_list(reg.nfts@, tkid);
    let idx = match find_nft(reg, tkid) {
        Some(i) => i,
        None => {
            proof {
                assert(false);
            }
            0
        },
    };
    proof {
        let c = choose|i: int| 0 <= i < reg.nfts@.len() && (#[trigger] reg.nfts@[i]).id == tkid;
        if c < idx {
            assert(reg.nfts@[c].id < reg.nfts@[idx as int].id);
        } else if c > idx {
            assert(reg.nfts@[idx as int].id < reg.nfts@[c].id);
        }
        assert(nft_at(reg.nfts@, tkid) == reg.nfts@[idx as int]);
    }
    let nft = &reg.nfts[idx];
    let ghost parts = nft.metadata@;
    let n = nft.metadata.len();
    let mut i: usize = 0;
    while i < n
        invariant
            reg.wf(),
            tree.wf(),
            n == nft.metadata@.len(),
            idx < reg.nfts@.len(),
            parts == nft_at(reg.nfts@, tkid).metadata@,
            parts == nft.metadata@,
            i <= n,
            l == commit_list(reg.nfts@, tkid),
            as_map(tree.model()) == apply_inserts(m0, l.take(i as int)),
        decreases n - i,
    {
        let h = sha256(nft.metadata[i].data.as_slice());
        let p = path_part_bytes(tkid, i as u64);
        tree.put(p, h);
        proof {
            assert(l.take(i + 1).drop_last() =~= l.take(i as int));
            assert(l.take(i + 1).last() == l[i as int]);
            assert(l[i as int] == (path_of_part(tkid, i as int), sha256_of(parts[i as int].data@)));
        }
        i += 1;
    }
    match default_part(&nft.metadata) {
        Some(di) => {
            let h = sha256(nft.metadata[di].data.as_slice());
            let p = path_id_bytes(tkid);
            tree.put(p, h);
            proof {
                assert(l.take(n + 1).drop_last() =~= l.take(n as int));
                assert(l.take(n + 1).last() == l[n as int]);
                assert(l[n as int] == (path_of_id(tkid), sha256_of(parts[di as int].data@)));
                assert(as_map(tree.model()) == apply_inserts(m0, l.take(n + 1)));
                assert(l.take(n + 1) =~= l.drop_last());
                assert(as_map(tree.model()) == apply_inserts(m0, l.drop_last()));
            }
        },
        None => {
            proof {
                assert(l.take(n as int) =~= l.drop_last());
                assert(as_map(tree.model()) == apply_inserts(m0, l.drop_last()));
            }
        },
    }
    let mut total = total_prefix_bytes();
    let d = u64_to_dec(reg.nfts.len() as u64);
    total.extend_from_slice(d.as_slice());
    proof {
        assert(total@ =~= total_text(reg.nfts@.len()));
    }
    let h = sha256(total.as_slice());
    let mut rp: Vec<u8> = Vec::new();
    rp.push(47);
    proof {
        assert(rp@ =~= root_path());
    }
    tree.put(rp, h);
    proof {
        let a = Seq::new(parts.len(), |i: int| (path_of_part(tkid, i), sha256_of(parts[i].data@)));
        let b = (match default_part_index(parts) {
            Some(i) => seq![(path_of_id(tkid), sha256_of(parts[i].data@))],
            None => Seq::<(Seq<u8>, Seq<u8>)>::empty(),
        });
        let cc = seq![(root_path(), sha256_of(total_text(reg.nfts@.len())))];
        assert(l == a + b + cc);
        assert((a + b + cc)[(a + b).len() as int] == cc[0]);
        assert(l.len() - 1 == (a + b).len());
        assert(l.last() == (root_path(), sha256_of(total_text(reg.nfts@.len()))));
        assert(apply_inserts(m0, l) == apply_inserts(m0, l.drop_last()).insert(
            l.last().0,
            l.last().1,
        ));
        assert(as_map(tree.model()) == apply_inserts(m0, l));
    }
    let root = tree.root_hash();
    let label = http_assets_label_bytes();
    labeled_hash_exec(label.as_slice(), root.as_slice())
}

// ------------------------------------------------------------------
// The certified read path.
// ------------------------------------------------------------------

/// A complete response: status, headers in order, body bytes.
pub struct HttpResponse {
    pub status_code: u16,
    pub headers: Vec<(Vec<u8>, Vec<u8>)>,
    pub body: Vec<u8>,
}

/// Header pairs as byte sequences.
pub open spec fn header_views(h: Seq<(Vec<u8>, Vec<u8>)>) -> Seq<(Seq<u8>, Seq<u8>)> {
    h.map(|i: int, p: (Vec<u8>, Vec<u8>)| (p.0@, p.1@))
}

/// The certification header value for given certificate and witness wire
/// bytes: `certificate=:<base64>:, tree=:<base64>:`.
pub open spec fn cert_header_value(cert: Seq<u8>, wire: Seq<u8>) -> Seq<u8> {
    txt_cert_prefix() + base64_of(cert) + txt_cert_mid() + base64_of(wire) + txt_cert_end()
}

pub open spec fn all_base64(s: Seq<u8>) -> bool {
    forall|i: int| 0 <= i < s.len() ==> is_base64_byte(#[trigger] s[i])
}

/// The exact shape verifiers rely on: the two fixed delimiters around two
/// runs of base64 bytes — which never include a colon or whitespace.
pub open spec fn certification_header_shape(v: Seq<u8>) -> bool {
    exists|x: Seq<u8>, y: Seq<u8>|
        {
            &&& v == txt_cert_prefix() + x + txt_cert_mid() + y + txt_cert_end()
            &&& #[trigger] all_base64(x)
            &&& #[trigger] all_base64(y)
        }
}

/// The full header list of a response, in order: the security policy, the
/// certification header when a certificate exists, the transport-security
/// header in production, and the body's content type when known.
pub open spec fn headers_spec(
    cert_value: Option<Seq<u8>>,
    production: bool,
    ct: Option<Seq<u8>>,
) -> Seq<(Seq<u8>, Seq<u8>)> {
    seq![(txt_csp_name(), txt_csp_value())] + (match cert_value {
        Some(v) => seq![(txt_cert_name(), v)],
        None => Seq::<(Seq<u8>, Seq<u8>)>::empty(),
    }) + (if production {
        seq![(txt_sts_name(), txt_sts_value())]
    } else {
        Seq::<(Seq<u8>, Seq<u8>)>::empty()
    }) + (match ct {
        Some(v) => seq![(txt_content_type_name(), v)],
        None => Seq::<(Seq<u8>, Seq<u8>)>::empty(),
    })
}

/// What a read request resolves to, decoding segments as the transport
/// does: an undecodable first segment is an invalid id, an undecodable
/// second one an invalid part index, and otherwise the resolver's rules apply
/// to the decoded segments.
pub open spec fn request_spec(nfts: Seq<Nft>, resource: Seq<u8>) -> ResolvedSpec {
    let s0 = seg0_of(resource);
    let s1 = seg1_of(resource);
    match percent_decoded_of(s0) {
        None => ResolvedSpec {
            status: 400,
            body: txt_invalid_nft_prefix() + s0,
            content_type: None,
        },
        Some(d0) => {
            if d0.len() == 0 || !parses_as_u64(d0) || !has_nft(nfts, crate::resolver::parsed_u64(d0) as u64) {
                resolve_spec(nfts, d0, Seq::empty())
            } else {
                match percent_decoded_of(s1) {
                    None => ResolvedSpec {
                        status: 400,
                        body: txt_invalid_part_prefix() + s1,
                        content_type: None,
                    },
                    Some(d1) => resolve_spec(nfts, d0, d1),
                }
            }
        },
    }
}

/// Resolves a full resource path (no query string), decoding segments.
pub fn resolve(reg: &Registry, path: &[u8]) -> (r: Resolved)
    requires
        reg.wf(),
    ensures
        r.view_spec() == request_spec(reg.nfts@, path@),
        r.status_code == 200 || r.status_code == 400 || r.status_code == 404,
{
    let (s0, s1) = segments(path);
    let empty: Vec<u8> = Vec::new();
    proof {
        assert(empty@ =~= Seq::<u8>::empty());
    }
    let d0 = match percent_decode_segment(s0.as_slice()) {
        Some(d) => d,
        None => {
            let mut body = invalid_nft_prefix_bytes();
            body.extend_from_slice(s0.as_slice());
            proof {
                assert(body@ =~= txt_invalid_nft_prefix() + s0@);
            }
            return Resolved { status_code: 400, body, content_type: None };
        },
    };
    if d0.len() == 0 {
        return resolve_segments(reg, d0.as_slice(), empty.as_slice());
    }
    let id = match parse_u64(d0.as_slice()) {
        Some(v) => v,
        None => {
            return resolve_segments(reg, d0.as_slice(), empty.as_slice());
        },
    };
    if find_nft(reg, id).is_none() {
        return resolve_segments(reg, d0.as_slice(), empty.as_slice());
    }
    let d1 = match percent_decode_segment(s1.as_slice()) {
        Some(d) => d,
        None => {
            let mut body = invalid_part_prefix_bytes();
            body.extend_from_slice(s1.as_slice());
            proof {
                assert(body@ =~= txt_invalid_part_prefix() + s1@);
            }
            return Resolved { status_code: 400, body, content_type: None };
        },
    };
    resolve_segments(reg, d0.as_slice(), d1.as_slice())
}

/// Builds the certification header value for the given certificate bytes
/// and resource path: base64 of the certificate and of the canonical wire
/// encoding of the labeled witness, in the fixed delimiter shape.
pub fn certification_header_value(tree: &HashTreeMap, certificate: &[u8], resource: &[u8]) -> (v: Vec<u8>)
    requires
        tree.wf(),
    ensures
        certification_header_shape(v@),
        exists|w: WitnessShape|
            {
                &&& v@ == cert_header_value(
                    certificate@,
                    wire_of(WitnessShape::Labeled(txt_http_assets_label(), Box::new(w))),
                )
                &&& #[trigger] reconstruct(w) == subtree_hash(tree.model())
                &&& lookup_in(w, resource@) == (if as_map(tree.model()).contains_key(resource@) {
                    Some(as_map(tree.model())[resource@])
                } else {
                    None::<Seq<u8>>
                })
            },
{
    let w = tree.witness(resource);
    let ghost sw = shape_of(w);
    let label = http_assets_label_bytes();
    let labeled = WitnessNode::Labeled(label, Box::new(w));
    proof {
        assert(shape_of(labeled) == WitnessShape::Labeled(txt_http_assets_label(), Box::new(sw)));
    }
    let wire = encode_witness(&labeled);
    let b64_cert = base64_encode(certificate);
    let b64_tree = base64_encode(wire.as_slice());
    let mut v = cert_prefix_bytes();
    v.extend_from_slice(b64_cert.as_slice());
    let mid = cert_mid_bytes();
    v.extend_from_slice(mid.as_slice());
    v.extend_from_slice(b64_tree.as_slice());
    let endp = cert_end_bytes();
    v.extend_from_slice(endp.as_slice());
    proof {
        assert(v@ =~= txt_cert_prefix() + base64_of(certificate@) + txt_cert_mid()
            + base64_of(wire@) + txt_cert_end());
        assert(v@ == cert_header_value(certificate@, wire_of(shape_of(labeled))));
        assert(certification_header_shape(v@)) by {
            let x = base64_of(certificate@);
            let y = base64_of(wire@);
            assert(v@ == txt_cert_prefix() + x + txt_cert_mid() + y + txt_cert_end()
                && all_base64(x) && all_base64(y));
        }
        assert(reconstruct(sw) == subtree_hash(tree.model()));
    }
    v
}

/// Serves one read request: strips the query string, certifies the
/// resource path against the current tree (omitting the certification
/// header when no certificate has been issued yet), resolves the content,
/// and assembles status, headers and body.
pub fn http_request(
    reg: &Registry,
    tree: &HashTreeMap,
    certificate: Option<&Vec<u8>>,
    url: &[u8],
    production: bool,
) -> (resp: HttpResponse)
    requires
        reg.wf(),
        tree.wf(),
    ensures
        resp.status_code as int == request_spec(reg.nfts@, resource_of(url@)).status,
        resp.body@ == request_spec(reg.nfts@, resource_of(url@)).body,
        certificate is None ==> header_views(resp.headers@) == headers_spec(
            None,
            production,
            request_spec(reg.nfts@, resource_of(url@)).content_type,
        ),
        certificate is Some ==> exists|w: WitnessShape|
            {
                &&& header_views(resp.headers@) == headers_spec(
                    Some(cert_header_value(
                        certificate->Some_0@,
                        wire_of(WitnessShape::Labeled(txt_http_assets_label(), Box::new(w))),
                    )),
                    production,
                    request_spec(reg.nfts@, resource_of(url@)).content_type,
                )
                &&& #[trigger] reconstruct(w) == subtree_hash(tree.model())
                &&& lookup_in(w, resource_of(url@)) == (if as_map(tree.model()).contains_key(
                    resource_of(url@),
                ) {
                    Some(as_map(tree.model())[resource_of(url@)])
                } else {
                    None::<Seq<u8>>
                })
                &&& certification_header_shape(header_views(resp.headers@)[1].1)
            },
{
    let resource = resource_part(url);
    let resolved = resolve(reg, resource.as_slice());
    let Resolved { status_code, body, content_type } = resolved;
    let mut headers: Vec<(Vec<u8>, Vec<u8>)> = Vec::new();
    headers.push((csp_name_bytes(), csp_value_bytes()));
    let ghost mut header_value: Seq<u8> = Seq::empty();
    match certificate {
        Some(cert) => {
            let v = certification_header_value(tree, cert.as_slice(), resource.as_slice());
            proof {
                header_value = v@;
            }
            headers.push((cert_name_bytes(), v));
        },
        None => {},
    }
    if production {
        headers.push((sts_name_bytes(), sts_value_bytes()));
    }
    match content_type {
        Some(ct) => {
            headers.push((content_type_name_bytes(), ct));
        },
        None => {},
    }
    let resp = HttpResponse { status_code, headers, body };
    proof {
        let spec_ct = request_spec(reg.nfts@, resource_of(url@)).content_type;
        match certificate {
            None => {
                assert(header_views(resp.headers@) =~= headers_spec(None, production, spec_ct));
            },
            Some(cert) => {
                let w = choose|w: WitnessShape|
                    {
                        &&& header_value == cert_header_value(
                            cert@,
                            wire_of(WitnessShape::Labeled(txt_http_assets_label(), Box::new(w))),
                        )
                        &&& #[trigger] reconstruct(w) == subtree_hash(tree.model())
                        &&& lookup_in(w, resource@) == (if as_map(tree.model()).contains_key(
                            resource@,
                        ) {
                            Some(as_map(tree.model())[resource@])
                        } else {
                            None::<Seq<u8>>
                        })
                    };
                assert(header_views(resp.headers@) =~= headers_spec(
                    Some(header_value),
                    production,
                    spec_ct,
                ));
                assert(header_views(resp.headers@)[1].1 == header_value);
            },
        }
    }
    resp
}

// ------------------------------------------------------------------
// Laws of the protocol.
// ------------------------------------------------------------------

proof fn lemma_apply_inserts_covered(
    m1: Map<Seq<u8>, Seq<u8>>,
    m2: Map<Seq<u8>, Seq<u8>>,
    l: Seq<(Seq<u8>, Seq<u8>)>,
    k: Seq<u8>,
)
    requires
        key_in(l, k),
    ensures
        apply_inserts(m1, l).contains_key(k),
        apply_inserts(m2, l).contains_key(k),
        apply_inserts(m1, l)[k] == apply_inserts(m2, l)[k],
    decreases l.len(),
{
    let i = choose|i: int| 0 <= i < l.len() && (#[trigger] l[i]).0 == k;
    if l.last().0 == k {
    } else {
        assert(i < l.len() - 1);
        assert(l.drop_last()[i] == l[i]);
        lemma_apply_inserts_covered(m1, m2, l.drop_last(), k);
    }
}

proof fn lemma_apply_inserts_frame(m: Map<Seq<u8>, Seq<u8>>, l: Seq<(Seq<u8>, Seq<u8>)>, k: Seq<u8>)
    requires
        !key_in(l, k),
    ensures
        apply_inserts(m, l).contains_key(k) == m.contains_key(k),
        m.contains_key(k) ==> apply_inserts(m, l)[k] == m[k],
    decreases l.len(),
{
    if l.len() > 0 {
        assert(!key_in(l.drop_last(), k)) by {
            if key_in(l.drop_last(), k) {
                let i = choose|i: int|
                    0 <= i < l.drop_last().len() && (#[trigger] l.drop_last()[i]).0 == k;
                assert(l[i] == l.drop_last()[i]);
            }
        }
        assert(l.last().0 != k) by {
            assert(l[l.len() - 1] == l.last());
        }
        lemma_apply_inserts_frame(m, l.drop_last(), k);
    }
}

/// Re-applying the same bindings changes nothing: committing the same
/// content twice leaves the tree's map exactly as one commit leaves it.
pub proof fn lemma_apply_inserts_idempotent(m: Map<Seq<u8>, Seq<u8>>, l: Seq<(Seq<u8>, Seq<u8>)>)
    ensures
        apply_inserts(apply_inserts(m, l), l) == apply_inserts(m, l),
{
    let once = apply_inserts(m, l);
    let twice = apply_inserts(once, l);
    assert forall|k: Seq<u8>| #[trigger] twice.contains_key(k) implies once.contains_key(k)
        && twice[k] == once[k] by {
        if key_in(l, k) {
            lemma_apply_inserts_covered(once, m, l, k);
        } else {
            lemma_apply_inserts_frame(once, l, k);
            lemma_apply_inserts_frame(m, l, k);
        }
    }
    assert forall|k: Seq<u8>| #[trigger] once.contains_key(k) implies twice.contains_key(k) by {
        if key_in(l, k) {
            lemma_apply_inserts_covered(once, m, l, k);
        } else {
            lemma_apply_inserts_frame(once, l, k);
        }
    }
    assert(twice =~= once);
}

/// Committing an item's content a second time, with the registry
/// unchanged, binds the tree to exactly the same map.
pub proof fn lemma_add_hash_idempotent(m: Map<Seq<u8>, Seq<u8>>, nfts: Seq<Nft>, id: u64)
    ensures
        add_hash_map(add_hash_map(m, nfts, id), nfts, id) == add_hash_map(m, nfts, id),
{
    lemma_apply_inserts_idempotent(m, commit_list(nfts, id));
}

/// Re-registering an identical commitment cannot change what certified
/// reads observe: two well-formed trees that bind the same map are the
/// same entry sequence, so their root hashes, their commitments, and the
/// witness any read extracts all coincide.
pub proof fn lemma_recommitment_stable(t1: HashTreeMap, t2: HashTreeMap)
    requires
        t1.wf(),
        t2.wf(),
        as_map(t1.model()) == as_map(t2.model()),
    ensures
        t1.model() == t2.model(),
        subtree_hash(t1.model()) == subtree_hash(t2.model()),
        labeled_hash(txt_http_assets_label(), subtree_hash(t1.model())) == labeled_hash(
            txt_http_assets_label(),
            subtree_hash(t2.model()),
        ),
{
    lemma_root_determinism(t1.model(), t2.model());
}

} // verus!
