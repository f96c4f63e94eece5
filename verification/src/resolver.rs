//! The content resolver: items with ordered metadata parts, the decimal
//! path grammar, the default-part tie-break, and the pure read path from a
//! pair of path segments to status, body and content type.

use vstd::prelude::*;

use crate::bytes::bytes_eq;
use crate::text::{
    content_type_key_bytes, no_metadata_bytes, no_such_nft_bytes, no_such_part_bytes,
    invalid_nft_prefix_bytes, invalid_part_prefix_bytes, total_prefix_bytes,
    txt_content_type_key, txt_invalid_nft_prefix, txt_invalid_part_prefix, txt_no_metadata,
    txt_no_such_nft, txt_no_such_part, txt_total_prefix,
};

verus! {

/// Classification of a metadata part; `Rendered` marks the preferred
/// default rendering of an item.
#[derive(PartialEq, Eq, Structural, Clone, Copy)]
pub enum MetadataPurpose {
    Preview,
    Rendered,
}

/// A typed annotation value.
pub enum MetadataVal {
    TextContent(Vec<u8>),
    BlobContent(Vec<u8>),
    NatContent(u64),
}

/// One key/value annotation of a metadata part.
pub struct MetadataEntry {
    pub key: Vec<u8>,
    pub val: MetadataVal,
}

/// An immutable metadata part: payload bytes, a purpose tag, and an open
/// annotation list (carrying at least a content type when present).
pub struct MetadataPart {
    pub purpose: MetadataPurpose,
    pub key_val_data: Vec<MetadataEntry>,
    pub data: Vec<u8>,
}

/// One item: its identifier and its ordered metadata parts.
pub struct Nft {
    pub id: u64,
    pub metadata: Vec<MetadataPart>,
}

/// The item registry the read path serves from, ordered by identifier.
pub struct Registry {
    pub nfts: Vec<Nft>,
}

impl Registry {
    /// Identifiers strictly increase, so each occurs once.
    pub open spec fn wf(&self) -> bool {
        forall|i: int, j: int| 0 <= i < j < self.nfts@.len()
            ==> (#[trigger] self.nfts@[i]).id < (#[trigger] self.nfts@[j]).id
    }

    /// Appends an item when its identifier lies strictly above every
    /// existing one, keeping the registry ordered; a duplicate or
    /// out-of-order identifier is refused and the registry is unchanged.
    pub fn append_nft(&mut self, id: u64, metadata: Vec<MetadataPart>) -> (r: bool)
        requires
            old(self).wf(),
        ensures
            final(self).wf(),
            r == (old(self).nfts@.len() == 0 || old(self).nfts@.last().id < id),
            r ==> final(self).nfts@ == old(self).nfts@.push((Nft { id, metadata })),
            r ==> has_nft(final(self).nfts@, id),
            !r ==> *final(self) == *old(self),
    {
        let n = self.nfts.len();
        if n > 0 && self.nfts[n - 1].id >= id {
            return false;
        }
        let ghost before = self.nfts@;
        self.nfts.push(Nft { id, metadata });
        proof {
            assert forall|i: int, j: int| 0 <= i < j < self.nfts@.len()
                implies (#[trigger] self.nfts@[i]).id < (#[trigger] self.nfts@[j]).id by {
                assert(self.nfts@[i] == before[i]);
                if j < self.nfts@.len() - 1 {
                    assert(self.nfts@[j] == before[j]);
                } else {
                    if i < before.len() - 1 {
                        assert(before[i].id < before[before.len() - 1].id);
                    }
                }
            }
            let last: int = self.nfts@.len() - 1;
            assert(self.nfts@[last].id == id);
        }
        true
    }
}

pub open spec fn has_nft(nfts: Seq<Nft>, id: u64) -> bool {
    exists|i: int| 0 <= i < nfts.len() && (#[trigger] nfts[i]).id == id
}

pub open spec fn nft_at(nfts: Seq<Nft>, id: u64) -> Nft {
    nfts[choose|i: int| 0 <= i < nfts.len() && (#[trigger] nfts[i]).id == id]
}

/// Index of the first part tagged `Rendered`, if any.
pub open spec fn first_rendered(parts: Seq<MetadataPart>) -> Option<int>
    decreases parts.len(),
{
    if parts.len() == 0 {
        None
    } else if parts[0].purpose == MetadataPurpose::Rendered {
        Some(0)
    } else {
        match first_rendered(parts.skip(1)) {
            Some(i) => Some(i + 1),
            None => None,
        }
    }
}

/// The part served at `/{id}`: the first `Rendered` part, else the first
/// part, else nothing.
pub open spec fn default_part_index(parts: Seq<MetadataPart>) -> Option<int> {
    match first_rendered(parts) {
        Some(i) => Some(i),
        None => if parts.len() > 0 {
            Some(0)
        } else {
            None
        },
    }
}

/// The `contentType` annotation of a part, when it is textual.
pub open spec fn content_type_of(entries: Seq<MetadataEntry>) -> Option<Seq<u8>>
    decreases entries.len(),
{
    if entries.len() == 0 {
        None
    } else if entries[0].key@ == txt_content_type_key() {
        match entries[0].val {
            MetadataVal::TextContent(v) => Some(v@),
            _ => None,
        }
    } else {
        content_type_of(entries.skip(1))
    }
}

/// Decimal digits only, at least one.
pub open spec fn all_digits(s: Seq<u8>) -> bool {
    forall|i: int| 0 <= i < s.len() ==> 48 <= #[trigger] s[i] <= 57
}

/// Value of a digit string.
pub open spec fn dec_val(s: Seq<u8>) -> nat
    decreases s.len(),
{
    if s.len() == 0 {
        0
    } else {
        (dec_val(s.take(s.len() - 1)) * 10 + (s.last() - 48)) as nat
    }
}

/// The digits of a segment, allowing one leading `+` as the standard
/// library's integer grammar does.
pub open spec fn digits_part(s: Seq<u8>) -> Seq<u8> {
    if s.len() > 0 && s[0] == 43 {
        s.skip(1)
    } else {
        s
    }
}

/// The segment denotes a non-negative integer within machine range.
pub open spec fn parses_as_u64(s: Seq<u8>) -> bool {
    &&& digits_part(s).len() > 0
    &&& all_digits(digits_part(s))
    &&& dec_val(digits_part(s)) <= u64::MAX
}

pub open spec fn parsed_u64(s: Seq<u8>) -> nat {
    dec_val(digits_part(s))
}

/// A prefix of a digit string never denotes more than the whole.
proof fn lemma_dec_val_prefix(s: Seq<u8>, k: int)
    requires
        0 <= k <= s.len(),
        all_digits(s),
    ensures
        dec_val(s.take(k)) <= dec_val(s),
    decreases s.len(),
{
    if k == s.len() {
        assert(s.take(k) =~= s);
    } else {
        let head = s.take(s.len() - 1);
        assert forall|i: int| 0 <= i < head.len() implies 48 <= #[trigger] head[i] <= 57 by {
            assert(head[i] == s[i]);
        }
        lemma_dec_val_prefix(head, k);
        assert(head.take(k) =~= s.take(k));
        assert(48 <= s.last() <= 57);
        assert(dec_val(s) == dec_val(head) * 10 + (s.last() - 48));
    }
}

/// Parses a decimal segment as the grammar above describes, rejecting
/// out-of-range values.
pub fn parse_u64(s: &[u8]) -> (r: Option<u64>)
    ensures
        r is Some <==> parses_as_u64(s@),
        r is Some ==> r->Some_0 == parsed_u64(s@),
{
    let ghost whole = s@;
    let mut start: usize = 0;
    if s.len() > 0 && s[0] == 43 {
        start = 1;
    }
    proof {
        assert(digits_part(whole) =~= whole.skip(start as int));
    }
    if s.len() == start {
        return None;
    }
    let ghost d = digits_part(whole);
    let mut val: u64 = 0;
    let mut i: usize = start;
    while i < s.len()
        invariant
            start <= i <= s@.len(),
            d == digits_part(whole),
            whole == s@,
            d =~= whole.skip(start as int),
            all_digits(d.take(i - start)),
            val == dec_val(d.take(i - start)),
        decreases s.len() - i,
    {
        let c = s[i];
        if c < 48 || c > 57 {
            proof {
                assert(d[i - start] == c);
            }
            return None;
        }
        let step = val.checked_mul(10);
        let next = match step {
            Some(v) => v.checked_add((c - 48) as u64),
            None => None,
        };
        match next {
            Some(v) => {
                proof {
                    assert(d.take(i - start + 1).take(i - start) =~= d.take(i - start));
                    assert(d.take(i - start + 1).last() == c);
                }
                val = v;
            },
            None => {
                proof {
                    assert(d.take(i - start + 1).take(i - start) =~= d.take(i - start));
                    assert(d.take(i - start + 1).last() == c);
                    assert(dec_val(d.take(i - start + 1)) > u64::MAX);
                    if parses_as_u64(whole) {
                        lemma_dec_val_prefix(d, i - start + 1);
                        assert(false);
                    }
                }
                return None;
            },
        }
        i += 1;
    }
    proof {
        assert(d.take(i - start) =~= d);
    }
    Some(val)
}

/// Decimal digits of `n`, most significant first.
pub open spec fn dec_of(n: nat) -> Seq<u8>
    decreases n,
{
    if n < 10 {
        seq![(48 + n) as u8]
    } else {
        dec_of(n / 10) + seq![(48 + n % 10) as u8]
    }
}

/// Renders `n` in decimal.
pub fn u64_to_dec(n: u64) -> (r: Vec<u8>)
    ensures
        r@ == dec_of(n as nat),
    decreases n,
{
    if n < 10 {
        let mut v: Vec<u8> = Vec::new();
        v.push(48 + n as u8);
        assert(v@ =~= dec_of(n as nat));
        v
    } else {
        let mut v = u64_to_dec(n / 10);
        v.push(48 + (n % 10) as u8);
        assert(v@ =~= dec_of((n / 10) as nat) + seq![(48 + n as nat % 10) as u8]);
        v
    }
}

/// What one resolved read request looks like, mathematically.
pub struct ResolvedSpec {
    pub status: int,
    pub body: Seq<u8>,
    pub content_type: Option<Seq<u8>>,
}

/// The read contract over already-decoded segments: the empty first
/// segment summarises the collection, `/{id}` serves the default part
/// under the tie-break rule, `/{id}/{part}` a specific part; non-integers
/// give 400 and unknown ids or part indexes 404.
pub open spec fn resolve_spec(nfts: Seq<Nft>, seg0: Seq<u8>, seg1: Seq<u8>) -> ResolvedSpec {
    if seg0.len() == 0 {
        ResolvedSpec {
            status: 200,
            body: txt_total_prefix() + dec_of(nfts.len()),
            content_type: None,
        }
    } else if !parses_as_u64(seg0) {
        ResolvedSpec { status: 400, body: txt_invalid_nft_prefix() + seg0, content_type: None }
    } else if !has_nft(nfts, parsed_u64(seg0) as u64) {
        ResolvedSpec { status: 404, body: txt_no_such_nft(), content_type: None }
    } else {
        let nft = nft_at(nfts, parsed_u64(seg0) as u64);
        if seg1.len() == 0 {
            match default_part_index(nft.metadata@) {
                None => ResolvedSpec { status: 200, body: txt_no_metadata(), content_type: None },
                Some(i) => ResolvedSpec {
                    status: 200,
                    body: nft.metadata@[i].data@,
                    content_type: content_type_of(nft.metadata@[i].key_val_data@),
                },
            }
        } else if !parses_as_u64(seg1) {
            ResolvedSpec { status: 400, body: txt_invalid_part_prefix() + seg1, content_type: None }
        } else if parsed_u64(seg1) >= nft.metadata@.len() {
            ResolvedSpec { status: 404, body: txt_no_such_part(), content_type: None }
        } else {
            let part = nft.metadata@[parsed_u64(seg1) as int];
            ResolvedSpec {
                status: 200,
                body: part.data@,
                content_type: content_type_of(part.key_val_data@),
            }
        }
    }
}

/// One resolved read: status, body bytes, optional content type.
pub struct Resolved {
    pub status_code: u16,
    pub body: Vec<u8>,
    pub content_type: Option<Vec<u8>>,
}

impl Resolved {
    /// The executable result, seen mathematically.
    pub open spec fn view_spec(&self) -> ResolvedSpec {
        ResolvedSpec {
            status: self.status_code as int,
            body: self.body@,
            content_type: match self.content_type {
                Some(v) => Some(v@),
                None => None,
            },
        }
    }
}

/// Looks an item up by identifier.
pub fn find_nft(reg: &Registry, id: u64) -> (r: Option<usize>)
    ensures
        r is Some ==> r->Some_0 < reg.nfts@.len() && reg.nfts@[r->Some_0 as int].id == id,
        r is None ==> !has_nft(reg.nfts@, id),
{
    let mut i: usize = 0;
    while i < reg.nfts.len()
        invariant
            i <= reg.nfts@.len(),
            forall|j: int| 0 <= j < i ==> (#[trigger] reg.nfts@[j]).id != id,
        decreases reg.nfts.len() - i,
    {
        if reg.nfts[i].id == id {
            return Some(i);
        }
        i += 1;
    }
    None
}

proof fn lemma_first_rendered_found(parts: Seq<MetadataPart>, i: int)
    requires
        0 <= i < parts.len(),
        parts[i].purpose == MetadataPurpose::Rendered,
        forall|j: int| 0 <= j < i ==> (#[trigger] parts[j]).purpose != MetadataPurpose::Rendered,
    ensures
        first_rendered(parts) == Some(i),
    decreases parts.len(),
{
    if i > 0 {
        assert forall|j: int| 0 <= j < i - 1
            implies (#[trigger] parts.skip(1)[j]).purpose != MetadataPurpose::Rendered by {
            assert(parts.skip(1)[j] == parts[j + 1]);
        }
        assert(parts.skip(1)[i - 1] == parts[i]);
        lemma_first_rendered_found(parts.skip(1), i - 1);
    }
}

proof fn lemma_first_rendered_none(parts: Seq<MetadataPart>)
    requires
        forall|j: int| 0 <= j < parts.len()
            ==> (#[trigger] parts[j]).purpose != MetadataPurpose::Rendered,
    ensures
        first_rendered(parts) is None,
    decreases parts.len(),
{
    if parts.len() > 0 {
        assert forall|j: int| 0 <= j < parts.skip(1).len()
            implies (#[trigger] parts.skip(1)[j]).purpose != MetadataPurpose::Rendered by {
            assert(parts.skip(1)[j] == parts[j + 1]);
        }
        lemma_first_rendered_none(parts.skip(1));
    }
}

/// Index of the part served by default, under the tie-break rule.
pub fn default_part(parts: &Vec<MetadataPart>) -> (r: Option<usize>)
    ensures
        match r {
            Some(i) => i < parts@.len() && default_part_index(parts@) == Some(i as int),
            None => default_part_index(parts@) is None,
        },
{
    let mut i: usize = 0;
    while i < parts.len()
        invariant
            i <= parts@.len(),
            forall|j: int| 0 <= j < i
                ==> (#[trigger] parts@[j]).purpose != MetadataPurpose::Rendered,
        decreases parts.len() - i,
    {
        if matches!(parts[i].purpose, MetadataPurpose::Rendered) {
            proof {
                lemma_first_rendered_found(parts@, i as int);
            }
            return Some(i);
        }
        i += 1;
    }
    proof {
        lemma_first_rendered_none(parts@);
    }
    if parts.len() > 0 {
        Some(0)
    } else {
        None
    }
}

/// The `contentType` annotation of a part, freshly copied.
fn content_type_annotation(entries: &Vec<MetadataEntry>) -> (r: Option<Vec<u8>>)
    ensures
        match r {
            Some(v) => content_type_of(entries@) == Some(v@),
            None => content_type_of(entries@) is None,
        },
{
    let key = content_type_key_bytes();
    let mut i: usize = 0;
    proof {
        assert(entries@.skip(0) =~= entries@);
    }
    while i < entries.len()
        invariant
            i <= entries@.len(),
            key@ == txt_content_type_key(),
            content_type_of(entries@) == content_type_of(entries@.skip(i as int)),
        decreases entries.len() - i,
    {
        proof {
            assert(entries@.skip(i as int)[0] == entries@[i as int]);
            assert(entries@.skip(i as int).skip(1) =~= entries@.skip(i + 1));
        }
        if bytes_eq(entries[i].key.as_slice(), key.as_slice()) {
            match &entries[i].val {
                MetadataVal::TextContent(v) => {
                    return Some(crate::tree::copy_bytes(v.as_slice()));
                },
                _ => {
                    return None;
                },
            }
        }
        i += 1;
    }
    proof {
        assert(entries@.skip(i as int).len() == 0);
    }
    None
}

/// Resolves a pair of decoded segments against the registry, exactly as
/// `resolve_spec` describes.
pub fn resolve_segments(reg: &Registry, seg0: &[u8], seg1: &[u8]) -> (r: Resolved)
    requires
        reg.wf(),
    ensures
        r.view_spec() == resolve_spec(reg.nfts@, seg0@, seg1@),
        r.status_code == 200 || r.status_code == 400 || r.status_code == 404,
{
    if seg0.len() == 0 {
        let mut body = total_prefix_bytes();
        let count = u64_to_dec(reg.nfts.len() as u64);
        body.extend_from_slice(count.as_slice());
        proof {
            assert(body@ =~= txt_total_prefix() + dec_of(reg.nfts@.len()));
        }
        return Resolved { status_code: 200, body, content_type: None };
    }
    let id = match parse_u64(seg0) {
        Some(v) => v,
        None => {
            let mut body = invalid_nft_prefix_bytes();
            body.extend_from_slice(seg0);
            proof {
                assert(body@ =~= txt_invalid_nft_prefix() + seg0@);
            }
            return Resolved { status_code: 400, body, content_type: None };
        },
    };
    let idx = match find_nft(reg, id) {
        Some(i) => i,
        None => {
            return Resolved { status_code: 404, body: no_such_nft_bytes(), content_type: None };
        },
    };
    let nft = &reg.nfts[idx];
    proof {
        assert(has_nft(reg.nfts@, id));
        let c = choose|i: int| 0 <= i < reg.nfts@.len() && (#[trigger] reg.nfts@[i]).id == id;
        if c < idx {
            assert(reg.nfts@[c].id < reg.nfts@[idx as int].id);
        } else if c > idx {
            assert(reg.nfts@[idx as int].id < reg.nfts@[c].id);
        }
        assert(nft_at(reg.nfts@, id) == reg.nfts@[idx as int]);
    }
    if seg1.len() == 0 {
        match default_part(&nft.metadata) {
            None => {
                return Resolved {
                    status_code: 200,
                    body: no_metadata_bytes(),
                    content_type: None,
                };
            },
            Some(i) => {
                let part = &nft.metadata[i];
                return Resolved {
                    status_code: 200,
                    body: crate::tree::copy_bytes(part.data.as_slice()),
                    content_type: content_type_annotation(&part.key_val_data),
                };
            },
        }
    }
    let pidx = match parse_u64(seg1) {
        Some(v) => v,
        None => {
            let mut body = invalid_part_prefix_bytes();
            body.extend_from_slice(seg1);
            proof {
                assert(body@ =~= txt_invalid_part_prefix() + seg1@);
            }
            return Resolved { status_code: 400, body, content_type: None };
        },
    };
    if pidx >= nft.metadata.len() as u64 {
        return Resolved { status_code: 404, body: no_such_part_bytes(), content_type: None };
    }
    assert((pidx as usize) < nft.metadata@.len());
    let part = &nft.metadata[pidx as usize];
    Resolved {
        status_code: 200,
        body: crate::tree::copy_bytes(part.data.as_slice()),
        content_type: content_type_annotation(&part.key_val_data),
    }
}


/// How appending a part moves the first-`Rendered` index: an existing one
/// is kept; otherwise the new part takes it exactly when it is `Rendered`.
proof fn lemma_first_rendered_push(parts: Seq<MetadataPart>, p: MetadataPart)
    ensures
        first_rendered(parts.push(p)) == (match first_rendered(parts) {
            Some(i) => Some(i),
            None => if p.purpose == MetadataPurpose::Rendered {
                Some(parts.len() as int)
            } else {
                None::<int>
            },
        }),
    decreases parts.len(),
{
    if parts.len() == 0 {
        assert(parts.push(p)[0] == p);
        assert(parts.push(p).skip(1) =~= Seq::<MetadataPart>::empty());
        assert(first_rendered(Seq::<MetadataPart>::empty()) is None);
    } else {
        assert(parts.push(p)[0] == parts[0]);
        assert(parts.push(p).skip(1) =~= parts.skip(1).push(p));
        lemma_first_rendered_push(parts.skip(1), p);
    }
}

/// Tie-break stability: appending a part that is not `Rendered` to an item
/// that already has parts never changes which part is served by default,
/// and appending a `Rendered` part to an item that had none switches the
/// default to exactly that new part.
pub proof fn lemma_tie_break_stability(parts: Seq<MetadataPart>, p: MetadataPart)
    ensures
        parts.len() > 0 && p.purpose != MetadataPurpose::Rendered
            ==> default_part_index(parts.push(p)) == default_part_index(parts),
        first_rendered(parts) is None && p.purpose == MetadataPurpose::Rendered
            ==> default_part_index(parts.push(p)) == Some(parts.len() as int),
{
    lemma_first_rendered_push(parts, p);
}

} // verus!
