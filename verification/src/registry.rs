//! The keyed-map registry around the certified tree: token ownership,
//! approvals, per-token metadata and sale listings. Principals are modeled
//! as plain byte strings (the anonymous principal being the single byte
//! `0x04`) and amounts as machine integers; association lists with unique
//! keys stand in for the maps.

use vstd::prelude::*;

use crate::bytes::bytes_eq;

verus! {

/// Everything a registry operation can fail with.
#[derive(Debug, PartialEq, Eq)]
pub enum Error {
    Unauthorized,
    InvalidTokenId,
    ZeroAddress,
    OwnerNotFound,
    OperatorNotFound,
    TokenAlreadyExists,
    TransferFailed,
    ApprovalFailed,
    MetadataNotFound,
    NotListedForSale,
    AlreadyListedForSale,
    CannotBuyOwnNFT,
    InsufficientFunds,
    Other(String),
}

/// Flat descriptive metadata of one token.
#[derive(Clone, Debug)]
pub struct Metadata {
    pub name: String,
    pub description: String,
    pub media_url: String,
}

/// A sale listing: who sells, and for how much.
#[derive(Clone, Debug)]
pub struct Listing {
    pub seller: Vec<u8>,
    pub price: u64,
}

/// An association list seen as a map; earlier pairs win, and well-formed
/// lists have no duplicate keys.
pub open spec fn assoc_map<T>(s: Seq<(u64, T)>) -> Map<u64, T>
    decreases s.len(),
{
    if s.len() == 0 {
        Map::empty()
    } else {
        assoc_map(s.skip(1)).insert(s[0].0, s[0].1)
    }
}

pub open spec fn unique_keys<T>(s: Seq<(u64, T)>) -> bool {
    forall|i: int, j: int| 0 <= i < j < s.len() ==> (#[trigger] s[i]).0 != (#[trigger] s[j]).0
}

pub proof fn lemma_assoc_map_contains<T>(s: Seq<(u64, T)>, k: u64)
    ensures
        assoc_map(s).contains_key(k) <==> exists|i: int| 0 <= i < s.len() && (#[trigger] s[i]).0
            == k,
    decreases s.len(),
{
    if s.len() > 0 {
        lemma_assoc_map_contains(s.skip(1), k);
        if s[0].0 == k {
        } else if assoc_map(s).contains_key(k) {
            let i = choose|i: int| 0 <= i < s.skip(1).len() && (#[trigger] s.skip(1)[i]).0 == k;
            assert(s[i + 1] == s.skip(1)[i]);
        } else if exists|i: int| 0 <= i < s.len() && (#[trigger] s[i]).0 == k {
            let i = choose|i: int| 0 <= i < s.len() && (#[trigger] s[i]).0 == k;
            assert(s.skip(1)[i - 1] == s[i]);
        }
    }
}

/// Dropping the pair at a key's index removes that key from the map.
pub proof fn lemma_assoc_remove<T>(s: Seq<(u64, T)>, i: int)
    requires
        unique_keys(s),
        0 <= i < s.len(),
    ensures
        assoc_map(s.remove(i)) == assoc_map(s).remove(s[i].0),
    decreases s.len(),
{
    lemma_unique_skip(s);
    if i == 0 {
        assert(s.remove(0) =~= s.skip(1));
        lemma_assoc_map_contains(s.skip(1), s[0].0);
        assert forall|j: int| 0 <= j < s.skip(1).len()
            implies (#[trigger] s.skip(1)[j]).0 != s[0].0 by {
            assert(s.skip(1)[j] == s[j + 1]);
        }
        assert(assoc_map(s.remove(0)) =~= assoc_map(s).remove(s[0].0));
    } else {
        assert(s.remove(i).skip(1) =~= s.skip(1).remove(i - 1));
        assert(s.remove(i)[0] == s[0]);
        assert(s.skip(1)[i - 1] == s[i]);
        lemma_assoc_remove(s.skip(1), i - 1);
        assert(s[0].0 != s[i].0);
        assert(assoc_map(s.remove(i)) =~= assoc_map(s).remove(s[i].0));
    }
}

/// Overwriting the value at a key's index updates the map at that key.
pub proof fn lemma_assoc_update<T>(s: Seq<(u64, T)>, i: int, v: T)
    requires
        unique_keys(s),
        0 <= i < s.len(),
    ensures
        assoc_map(s.update(i, (s[i].0, v))) == assoc_map(s).insert(s[i].0, v),
    decreases s.len(),
{
    lemma_unique_skip(s);
    if i == 0 {
        assert(s.update(0, (s[0].0, v)).skip(1) =~= s.skip(1));
        assert(assoc_map(s.update(0, (s[0].0, v))) =~= assoc_map(s).insert(s[0].0, v));
    } else {
        assert(s.update(i, (s[i].0, v)).skip(1) =~= s.skip(1).update(i - 1, (s[i].0, v)));
        assert(s.update(i, (s[i].0, v))[0] == s[0]);
        assert(s.skip(1)[i - 1] == s[i]);
        lemma_assoc_update(s.skip(1), i - 1, v);
        assert(s[0].0 != s[i].0);
        assert(assoc_map(s.update(i, (s[i].0, v))) =~= assoc_map(s).insert(s[i].0, v));
    }
}

/// Appending a pair under a fresh key adds exactly that binding.
pub proof fn lemma_assoc_push<T>(s: Seq<(u64, T)>, k: u64, v: T)
    requires
        forall|j: int| 0 <= j < s.len() ==> (#[trigger] s[j]).0 != k,
    ensures
        assoc_map(s.push((k, v))) == assoc_map(s).insert(k, v),
    decreases s.len(),
{
    if s.len() == 0 {
        assert(s.push((k, v)).skip(1) =~= Seq::<(u64, T)>::empty());
        assert(s.push((k, v))[0] == (k, v));
        assert(assoc_map(Seq::<(u64, T)>::empty()) == Map::<u64, T>::empty());
        assert(assoc_map(s) == Map::<u64, T>::empty());
        assert(assoc_map(s.push((k, v))) =~= assoc_map(s).insert(k, v));
    } else {
        let t = s.push((k, v));
        assert(t.skip(1) =~= s.skip(1).push((k, v)));
        assert(t[0] == s[0]);
        assert forall|j: int| 0 <= j < s.skip(1).len()
            implies (#[trigger] s.skip(1)[j]).0 != k by {
            assert(s.skip(1)[j] == s[j + 1]);
        }
        lemma_assoc_push(s.skip(1), k, v);
        assert(s[0].0 != k);
        assert(t.len() > 1);
        assert(assoc_map(t) == assoc_map(t.skip(1)).insert(t[0].0, t[0].1));
        assert(assoc_map(t) == assoc_map(s.skip(1)).insert(k, v).insert(s[0].0, s[0].1));
        assert(assoc_map(s) == assoc_map(s.skip(1)).insert(s[0].0, s[0].1));
        assert(assoc_map(t) =~= assoc_map(s).insert(k, v));
    }
}

proof fn lemma_unique_skip<T>(s: Seq<(u64, T)>)
    requires
        unique_keys(s),
        s.len() > 0,
    ensures
        unique_keys(s.skip(1)),
{
    assert forall|a: int, b: int| 0 <= a < b < s.skip(1).len()
        implies (#[trigger] s.skip(1)[a]).0 != (#[trigger] s.skip(1)[b]).0 by {
        assert(s.skip(1)[a] == s[a + 1] && s.skip(1)[b] == s[b + 1]);
    }
}

pub proof fn lemma_assoc_map_index<T>(s: Seq<(u64, T)>, i: int)
    requires
        unique_keys(s),
        0 <= i < s.len(),
    ensures
        assoc_map(s).contains_key(s[i].0),
        assoc_map(s)[s[i].0] == s[i].1,
    decreases s.len(),
{
    lemma_assoc_map_contains(s, s[i].0);
    if i > 0 {
        assert forall|a: int, b: int| 0 <= a < b < s.skip(1).len()
            implies (#[trigger] s.skip(1)[a]).0 != (#[trigger] s.skip(1)[b]).0 by {
            assert(s.skip(1)[a] == s[a + 1] && s.skip(1)[b] == s[b + 1]);
        }
        assert(s.skip(1)[i - 1] == s[i]);
        lemma_assoc_map_index(s.skip(1), i - 1);
        assert(s[0].0 != s[i].0);
    }
}

/// Index of a key in an association list.
pub fn assoc_find<T>(s: &Vec<(u64, T)>, k: u64) -> (r: Option<usize>)
    ensures
        r is Some ==> r->Some_0 < s@.len() && s@[r->Some_0 as int].0 == k,
        r is None ==> forall|i: int| 0 <= i < s@.len() ==> (#[trigger] s@[i]).0 != k,
{
    let mut i: usize = 0;
    while i < s.len()
        invariant
            i <= s@.len(),
            forall|j: int| 0 <= j < i ==> (#[trigger] s@[j]).0 != k,
        decreases s.len() - i,
    {
        if s[i].0 == k {
            return Some(i);
        }
        i += 1;
    }
    None
}

/// The anonymous principal: a single `0x04` byte.
pub fn anonymous_principal() -> (r: Vec<u8>)
    ensures
        r@ == seq![4u8],
{
    let mut v: Vec<u8> = Vec::new();
    v.push(4);
    assert(v@ =~= seq![4u8]);
    v
}

pub open spec fn is_anonymous(p: Seq<u8>) -> bool {
    p == seq![4u8]
}

/// The registry state: naming, supply, ownership, approvals, metadata and
/// listings, each map an association list with unique keys.
pub struct State {
    pub name: Vec<u8>,
    pub symbol: Vec<u8>,
    pub owner: Option<Vec<u8>>,
    pub total_supply: u64,
    pub tokens: Vec<(u64, Vec<u8>)>,
    pub token_approvals: Vec<(u64, Vec<u8>)>,
    pub token_metadata: Vec<(u64, Metadata)>,
    pub operator_approvals: Vec<(Vec<u8>, Vec<Vec<u8>>)>,
    pub next_token_id: u64,
    pub listings: Vec<(u64, Listing)>,
}

impl State {
    pub open spec fn wf(&self) -> bool {
        &&& unique_keys(self.tokens@)
        &&& unique_keys(self.token_approvals@)
        &&& unique_keys(self.token_metadata@)
        &&& unique_keys(self.listings@)
        &&& forall|i: int, j: int| 0 <= i < j < self.operator_approvals@.len()
            ==> (#[trigger] self.operator_approvals@[i]).0@
                != (#[trigger] self.operator_approvals@[j]).0@
        &&& forall|i: int| 0 <= i < self.tokens@.len() ==> (#[trigger] self.tokens@[i]).0
            < self.next_token_id
        &&& forall|i: int| 0 <= i < self.token_metadata@.len()
            ==> (#[trigger] self.token_metadata@[i]).0 < self.next_token_id
    }

    /// Ownership as a map from token to owner bytes.
    pub open spec fn tokens_map(&self) -> Map<u64, Seq<u8>> {
        assoc_map(self.tokens@.map(|i: int, p: (u64, Vec<u8>)| (p.0, p.1@)))
    }

    pub open spec fn owner_of(&self, token_id: u64) -> Option<Seq<u8>> {
        if self.tokens_map().contains_key(token_id) {
            Some(self.tokens_map()[token_id])
        } else {
            None
        }
    }

    /// Per-token approvals as a map from token to approved principal.
    pub open spec fn approvals_map(&self) -> Map<u64, Seq<u8>> {
        assoc_map(self.token_approvals@.map(|i: int, p: (u64, Vec<u8>)| (p.0, p.1@)))
    }

    pub open spec fn approval_of(&self, token_id: u64) -> Option<Seq<u8>> {
        if self.approvals_map().contains_key(token_id) {
            Some(self.approvals_map()[token_id])
        } else {
            None
        }
    }

    /// Sale listings as a map from token to seller and price.
    pub open spec fn listings_map(&self) -> Map<u64, (Seq<u8>, u64)> {
        assoc_map(self.listings@.map(|i: int, p: (u64, Listing)| (p.0, (p.1.seller@, p.1.price))))
    }

    pub open spec fn listing_of(&self, token_id: u64) -> Option<(Seq<u8>, u64)> {
        if self.listings_map().contains_key(token_id) {
            Some(self.listings_map()[token_id])
        } else {
            None
        }
    }

    /// Who may move a token away from `from`: its owner, one of the
    /// owner's blanket operators, or the token's approved principal.
    pub open spec fn transfer_authorized(&self, caller: Seq<u8>, from: Seq<u8>, token_id: u64) -> bool {
        ||| self.owner_of(token_id) == Some(from)
        ||| operator_approved(self.operator_approvals@, from, caller)
        ||| self.approval_of(token_id) == Some(caller)
    }
}

impl Default for State {
    /// A fresh registry: fixed name and symbol, anonymous owner, empty
    /// maps, the next token numbered one.
    fn default() -> (s: Self)
        ensures
            s.wf(),
            s.name@ == seq![77u8, 121u8, 78u8, 70u8, 84u8],
            s.symbol@ == seq![77u8, 78u8, 70u8, 84u8],
            s.owner is Some && s.owner->0@ == seq![4u8],
            s.total_supply == 0,
            s.next_token_id == 1,
            s.tokens@.len() == 0,
            s.token_approvals@.len() == 0,
            s.token_metadata@.len() == 0,
            s.operator_approvals@.len() == 0,
            s.listings@.len() == 0,
    {
        let mut name: Vec<u8> = Vec::new();
        name.push(77);
        name.push(121);
        name.push(78);
        name.push(70);
        name.push(84);
        assert(name@ =~= seq![77u8, 121u8, 78u8, 70u8, 84u8]);
        let mut symbol: Vec<u8> = Vec::new();
        symbol.push(77);
        symbol.push(78);
        symbol.push(70);
        symbol.push(84);
        assert(symbol@ =~= seq![77u8, 78u8, 70u8, 84u8]);
        State {
            name,
            symbol,
            owner: Some(anonymous_principal()),
            total_supply: 0,
            tokens: Vec::new(),
            token_approvals: Vec::new(),
            token_metadata: Vec::new(),
            operator_approvals: Vec::new(),
            next_token_id: 1,
            listings: Vec::new(),
        }
    }
}

impl State {
    /// Installs the operator of the registry: the given owner, or whoever
    /// performed the installation.
    pub fn init(&mut self, owner: Option<Vec<u8>>, caller: &[u8])
        ensures
            match owner {
                Some(o) => final(self).owner == Some(o),
                None => final(self).owner is Some && final(self).owner->0@ == caller@,
            },
            final(self).name == old(self).name,
            final(self).symbol == old(self).symbol,
            final(self).tokens == old(self).tokens,
            final(self).token_approvals == old(self).token_approvals,
            final(self).token_metadata == old(self).token_metadata,
            final(self).listings == old(self).listings,
            final(self).total_supply == old(self).total_supply,
            final(self).next_token_id == old(self).next_token_id,
    {
        match owner {
            Some(o) => {
                self.owner = Some(o);
            },
            None => {
                self.owner = Some(crate::tree::copy_bytes(caller));
            },
        }
    }

    /// Mints a token for `to`: records ownership and metadata under a
    /// fresh identifier and returns it.
    pub fn mint(&mut self, to: Vec<u8>, metadata: Metadata) -> (r: Result<u64, Error>)
        requires
            old(self).wf(),
            old(self).next_token_id < u64::MAX,
            old(self).total_supply < u64::MAX,
        ensures
            final(self).wf(),
            r is Ok && r->Ok_0 == old(self).next_token_id,
            final(self).tokens@ == old(self).tokens@.push((old(self).next_token_id, to)),
            final(self).token_metadata@ == old(self).token_metadata@.push(
                (old(self).next_token_id, metadata),
            ),
            final(self).total_supply == old(self).total_supply + 1,
            final(self).next_token_id == old(self).next_token_id + 1,
            final(self).name == old(self).name,
            final(self).symbol == old(self).symbol,
            final(self).owner == old(self).owner,
            final(self).token_approvals == old(self).token_approvals,
            final(self).listings == old(self).listings,
    {
        let token_id = self.next_token_id;
        self.tokens.push((token_id, to));
        self.token_metadata.push((token_id, metadata));
        self.total_supply = self.total_supply + 1;
        self.next_token_id = self.next_token_id + 1;
        Ok(token_id)
    }

    /// The owner of a token, or `InvalidTokenId`.
    pub fn owner_of_token(&self, token_id: u64) -> (r: Result<Vec<u8>, Error>)
        ensures
            match r {
                Ok(v) => exists|i: int| 0 <= i < self.tokens@.len()
                    && (#[trigger] self.tokens@[i]).0 == token_id && self.tokens@[i].1@ == v@,
                Err(e) => e == Error::InvalidTokenId && (forall|i: int|
                    0 <= i < self.tokens@.len() ==> (#[trigger] self.tokens@[i]).0 != token_id),
            },
    {
        match assoc_find(&self.tokens, token_id) {
            Some(i) => Ok(crate::tree::copy_bytes(self.tokens[i].1.as_slice())),
            None => Err(Error::InvalidTokenId),
        }
    }

    /// How many tokens a principal owns.
    pub fn balance_of(&self, owner: &[u8]) -> (r: usize)
        ensures
            r as nat == owned_count(self.tokens@, owner@),
    {
        let mut count: usize = 0;
        let mut i: usize = 0;
        while i < self.tokens.len()
            invariant
                i <= self.tokens@.len(),
                count as nat == owned_count(self.tokens@.take(i as int), owner@),
                count <= i,
            decreases self.tokens.len() - i,
        {
            proof {
                assert(self.tokens@.take(i + 1).drop_last() =~= self.tokens@.take(i as int));
                assert(self.tokens@.take(i + 1).last() == self.tokens@[i as int]);
            }
            if bytes_eq(self.tokens[i].1.as_slice(), owner) {
                count = count + 1;
            }
            i += 1;
        }
        proof {
            assert(self.tokens@.take(i as int) =~= self.tokens@);
        }
        count
    }

    /// Transfers `token_id` from `from` to `to` on behalf of `caller`, who
    /// must be the owner or the token's approved principal; transfers to
    /// the anonymous principal are refused, and a transfer clears the
    /// token's approval and listing.
    pub fn transfer_from(
        &mut self,
        caller: &[u8],
        from: &[u8],
        to: Vec<u8>,
        token_id: u64,
    ) -> (r: Result<(), Error>)
        requires
            old(self).wf(),
        ensures
            final(self).wf(),
            match r {
                Ok(()) => {
                    &&& old(self).owner_of(token_id) is Some
                    &&& old(self).transfer_authorized(caller@, from@, token_id)
                    &&& !is_anonymous(to@)
                    &&& final(self).tokens_map() == old(self).tokens_map().insert(token_id, to@)
                    &&& final(self).owner_of(token_id) == Some(to@)
                    &&& final(self).approvals_map() == old(self).approvals_map().remove(token_id)
                    &&& final(self).listings_map() == old(self).listings_map().remove(token_id)
                    &&& final(self).token_metadata == old(self).token_metadata
                    &&& final(self).operator_approvals == old(self).operator_approvals
                    &&& final(self).name == old(self).name
                    &&& final(self).symbol == old(self).symbol
                    &&& final(self).owner == old(self).owner
                    &&& final(self).total_supply == old(self).total_supply
                    &&& final(self).next_token_id == old(self).next_token_id
                },
                Err(Error::InvalidTokenId) => old(self).owner_of(token_id) is None && *final(self)
                    == *old(self),
                Err(Error::Unauthorized) => old(self).owner_of(token_id) is Some
                    && !old(self).transfer_authorized(caller@, from@, token_id) && *final(self)
                    == *old(self),
                Err(Error::ZeroAddress) => old(self).owner_of(token_id) is Some && old(
                    self,
                ).transfer_authorized(caller@, from@, token_id) && is_anonymous(to@) && *final(self)
                    == *old(self),
                Err(_) => false,
            },
    {
        let owner_idx = match assoc_find(&self.tokens, token_id) {
            Some(i) => i,
            None => {
                proof {
                    lemma_assoc_contains_view(self.tokens@, token_id);
                }
                return Err(Error::InvalidTokenId);
            },
        };
        proof {
            lemma_tokens_owner(self.tokens@, owner_idx as int, token_id);
        }
        let owner_matches = bytes_eq(self.tokens[owner_idx].1.as_slice(), from);
        let operator_ok = self.is_approved_for_all(from, caller);
        let approved: bool = match assoc_find(&self.token_approvals, token_id) {
            Some(i) => {
                proof {
                    lemma_tokens_owner(self.token_approvals@, i as int, token_id);
                }
                bytes_eq(self.token_approvals[i].1.as_slice(), caller)
            },
            None => {
                proof {
                    lemma_assoc_contains_view(self.token_approvals@, token_id);
                }
                false
            },
        };
        assert(approved == (self.approval_of(token_id) == Some(caller@)));
        if !owner_matches && !operator_ok && !approved {
            return Err(Error::Unauthorized);
        }
        let anon = anonymous_principal();
        if bytes_eq(to.as_slice(), anon.as_slice()) {
            return Err(Error::ZeroAddress);
        }
        self.set_owner(token_id, owner_idx, to);
        self.clear_approval(token_id);
        self.clear_listing(token_id);
        Ok(())
    }

    /// Replaces the owner pair at a known index.
    fn set_owner(&mut self, token_id: u64, idx: usize, to: Vec<u8>)
        requires
            old(self).wf(),
            idx < old(self).tokens@.len(),
            old(self).tokens@[idx as int].0 == token_id,
        ensures
            final(self).wf(),
            final(self).tokens@ == old(self).tokens@.update(idx as int, (token_id, to)),
            final(self).tokens_map() == old(self).tokens_map().insert(token_id, to@),
            final(self).owner_of(token_id) == Some(to@),
            final(self).token_approvals == old(self).token_approvals,
            final(self).listings == old(self).listings,
            final(self).token_metadata == old(self).token_metadata,
            final(self).operator_approvals == old(self).operator_approvals,
            final(self).name == old(self).name,
            final(self).symbol == old(self).symbol,
            final(self).owner == old(self).owner,
            final(self).total_supply == old(self).total_supply,
            final(self).next_token_id == old(self).next_token_id,
    {
        let ghost before = self.tokens@;
        self.tokens.remove(idx);
        self.tokens.insert(idx, (token_id, to));
        proof {
            assert(self.tokens@ =~= before.update(idx as int, (token_id, to)));
            assert forall|a: int, b: int| 0 <= a < b < self.tokens@.len()
                implies (#[trigger] self.tokens@[a]).0 != (#[trigger] self.tokens@[b]).0 by {
                assert(self.tokens@[a].0 == before[a].0 && self.tokens@[b].0 == before[b].0);
            }
            let view = self.tokens@.map(|i: int, p: (u64, Vec<u8>)| (p.0, p.1@));
            assert(unique_keys(view)) by {
                assert forall|a: int, b: int| 0 <= a < b < view.len()
                    implies (#[trigger] view[a]).0 != (#[trigger] view[b]).0 by {
                    assert(view[a].0 == self.tokens@[a].0 && view[b].0 == self.tokens@[b].0);
                }
            }
            assert(view[idx as int] == (token_id, to@));
            lemma_assoc_map_index(view, idx as int);
            let oview = before.map(|i: int, p: (u64, Vec<u8>)| (p.0, p.1@));
            assert(unique_keys(oview)) by {
                assert forall|a: int, b: int| 0 <= a < b < oview.len()
                    implies (#[trigger] oview[a]).0 != (#[trigger] oview[b]).0 by {
                    assert(oview[a].0 == before[a].0 && oview[b].0 == before[b].0);
                }
            }
            assert(view =~= oview.update(idx as int, (token_id, to@)));
            assert(oview[idx as int].0 == token_id);
            lemma_assoc_update(oview, idx as int, to@);
        }
    }

    /// Removes any approval for the token.
    fn clear_approval(&mut self, token_id: u64)
        requires
            old(self).wf(),
        ensures
            final(self).wf(),
            final(self).approvals_map() == old(self).approvals_map().remove(token_id),
            !assoc_map(final(self).token_approvals@.map(
                |i: int, p: (u64, Vec<u8>)| (p.0, p.1@),
            )).contains_key(token_id),
            final(self).tokens == old(self).tokens,
            final(self).listings == old(self).listings,
            final(self).token_metadata == old(self).token_metadata,
            final(self).operator_approvals == old(self).operator_approvals,
            final(self).name == old(self).name,
            final(self).symbol == old(self).symbol,
            final(self).owner == old(self).owner,
            final(self).total_supply == old(self).total_supply,
            final(self).next_token_id == old(self).next_token_id,
    {
        let ghost before = self.token_approvals@;
        match assoc_find(&self.token_approvals, token_id) {
            Some(i) => {
                self.token_approvals.remove(i);
                proof {
                    lemma_unique_remove(before, i as int);
                    let view = self.token_approvals@.map(
                        |i: int, p: (u64, Vec<u8>)| (p.0, p.1@),
                    );
                    assert forall|j: int| 0 <= j < self.token_approvals@.len()
                        implies (#[trigger] self.token_approvals@[j]).0 != token_id by {
                        if j < i {
                            assert(self.token_approvals@[j] == before[j]);
                        } else {
                            assert(self.token_approvals@[j] == before[j + 1]);
                        }
                    }
                    assert forall|j: int| 0 <= j < view.len()
                        implies (#[trigger] view[j]).0 != token_id by {
                        assert(view[j].0 == self.token_approvals@[j].0);
                    }
                    lemma_assoc_map_contains(view, token_id);
                    let oview = before.map(|i: int, p: (u64, Vec<u8>)| (p.0, p.1@));
                    assert(unique_keys(oview)) by {
                        assert forall|a: int, b: int| 0 <= a < b < oview.len()
                            implies (#[trigger] oview[a]).0 != (#[trigger] oview[b]).0 by {
                            assert(oview[a].0 == before[a].0 && oview[b].0 == before[b].0);
                        }
                    }
                    assert(view =~= oview.remove(i as int));
                    assert(oview[i as int].0 == token_id);
                    lemma_assoc_remove(oview, i as int);
                }
            },
            None => {
                proof {
                    let view = self.token_approvals@.map(
                        |i: int, p: (u64, Vec<u8>)| (p.0, p.1@),
                    );
                    assert forall|j: int| 0 <= j < view.len()
                        implies (#[trigger] view[j]).0 != token_id by {
                        assert(view[j].0 == self.token_approvals@[j].0);
                    }
                    lemma_assoc_map_contains(view, token_id);
                    assert(self.approvals_map() =~= self.approvals_map().remove(token_id));
                }
            },
        }
    }

    /// Removes any sale listing for the token.
    fn clear_listing(&mut self, token_id: u64)
        requires
            old(self).wf(),
        ensures
            final(self).wf(),
            final(self).listings_map() == old(self).listings_map().remove(token_id),
            forall|i: int| 0 <= i < final(self).listings@.len()
                ==> (#[trigger] final(self).listings@[i]).0 != token_id,
            final(self).tokens == old(self).tokens,
            final(self).token_approvals == old(self).token_approvals,
            final(self).token_metadata == old(self).token_metadata,
            final(self).operator_approvals == old(self).operator_approvals,
            final(self).name == old(self).name,
            final(self).symbol == old(self).symbol,
            final(self).owner == old(self).owner,
            final(self).total_supply == old(self).total_supply,
            final(self).next_token_id == old(self).next_token_id,
    {
        let ghost before = self.listings@;
        match assoc_find(&self.listings, token_id) {
            Some(i) => {
                self.listings.remove(i);
                proof {
                    lemma_unique_remove(before, i as int);
                    assert forall|j: int| 0 <= j < self.listings@.len()
                        implies (#[trigger] self.listings@[j]).0 != token_id by {
                        if j < i {
                            assert(self.listings@[j] == before[j]);
                        } else {
                            assert(self.listings@[j] == before[j + 1]);
                        }
                    }
                    let oview = before.map(
                        |i: int, p: (u64, Listing)| (p.0, (p.1.seller@, p.1.price)),
                    );
                    assert(unique_keys(oview)) by {
                        assert forall|a: int, b: int| 0 <= a < b < oview.len()
                            implies (#[trigger] oview[a]).0 != (#[trigger] oview[b]).0 by {
                            assert(oview[a].0 == before[a].0 && oview[b].0 == before[b].0);
                        }
                    }
                    let view = self.listings@.map(
                        |i: int, p: (u64, Listing)| (p.0, (p.1.seller@, p.1.price)),
                    );
                    assert(view =~= oview.remove(i as int));
                    assert(oview[i as int].0 == token_id);
                    lemma_assoc_remove(oview, i as int);
                }
            },
            None => {
                proof {
                    let view = self.listings@.map(
                        |i: int, p: (u64, Listing)| (p.0, (p.1.seller@, p.1.price)),
                    );
                    assert forall|j: int| 0 <= j < view.len()
                        implies (#[trigger] view[j]).0 != token_id by {
                        assert(view[j].0 == self.listings@[j].0);
                    }
                    lemma_assoc_map_contains(view, token_id);
                    assert(self.listings_map() =~= self.listings_map().remove(token_id));
                }
            },
        }
    }

    /// Approves a principal for one token; the owner may, and so may any
    /// of the owner's blanket operators.
    pub fn approve(&mut self, caller: &[u8], approved: Vec<u8>, token_id: u64) -> (r: Result<
        (),
        Error,
    >)
        requires
            old(self).wf(),
        ensures
            final(self).wf(),
            match r {
                Ok(()) => {
                    &&& old(self).owner_of(token_id) is Some
                    &&& (old(self).owner_of(token_id) == Some(caller@) || operator_approved(
                        old(self).operator_approvals@,
                        old(self).owner_of(token_id)->Some_0,
                        caller@,
                    ))
                    &&& final(self).approvals_map() == old(self).approvals_map().insert(
                        token_id,
                        approved@,
                    )
                    &&& final(self).token_metadata == old(self).token_metadata
                    &&& final(self).operator_approvals == old(self).operator_approvals
                    &&& final(self).name == old(self).name
                    &&& final(self).symbol == old(self).symbol
                    &&& final(self).owner == old(self).owner
                    &&& final(self).total_supply == old(self).total_supply
                    &&& final(self).next_token_id == old(self).next_token_id
                },
                Err(Error::InvalidTokenId) => old(self).owner_of(token_id) is None && *final(self)
                    == *old(self),
                Err(Error::Unauthorized) => old(self).owner_of(token_id) is Some
                    && old(self).owner_of(token_id) != Some(caller@) && !operator_approved(
                    old(self).operator_approvals@,
                    old(self).owner_of(token_id)->Some_0,
                    caller@,
                ) && *final(self) == *old(self),
                Err(_) => false,
            },
            final(self).tokens == old(self).tokens,
            final(self).listings == old(self).listings,
    {
        let owner_idx = match assoc_find(&self.tokens, token_id) {
            Some(i) => i,
            None => {
                proof {
                    lemma_assoc_contains_view(self.tokens@, token_id);
                }
                return Err(Error::InvalidTokenId);
            },
        };
        proof {
            lemma_tokens_owner(self.tokens@, owner_idx as int, token_id);
        }
        let owner_bytes = crate::tree::copy_bytes(self.tokens[owner_idx].1.as_slice());
        let is_owner = bytes_eq(owner_bytes.as_slice(), caller);
        let is_operator = self.is_approved_for_all(owner_bytes.as_slice(), caller);
        if !is_owner && !is_operator {
            return Err(Error::Unauthorized);
        }
        let ghost before = self.token_approvals@;
        self.clear_approval(token_id);
        let ghost cleared = self.token_approvals@;
        self.token_approvals.push((token_id, approved));
        proof {
            let cview = cleared.map(|i: int, p: (u64, Vec<u8>)| (p.0, p.1@));
            lemma_assoc_map_contains(cview, token_id);
            assert forall|j: int| 0 <= j < cleared.len()
                implies (#[trigger] cleared[j]).0 != token_id by {
                assert(cview[j].0 == cleared[j].0);
                if cleared[j].0 == token_id {
                    assert(cview[j].0 == token_id);
                }
            }
            assert forall|a: int, b: int| 0 <= a < b < self.token_approvals@.len()
                implies (#[trigger] self.token_approvals@[a]).0
                    != (#[trigger] self.token_approvals@[b]).0 by {
                if b < self.token_approvals@.len() - 1 {
                    assert(self.token_approvals@[a] == cleared[a]);
                    assert(self.token_approvals@[b] == cleared[b]);
                } else {
                    assert(self.token_approvals@[a] == cleared[a]);
                }
            }
            let view = self.token_approvals@.map(|i: int, p: (u64, Vec<u8>)| (p.0, p.1@));
            assert(unique_keys(view)) by {
                assert forall|a: int, b: int| 0 <= a < b < view.len()
                    implies (#[trigger] view[a]).0 != (#[trigger] view[b]).0 by {
                    assert(view[a].0 == self.token_approvals@[a].0
                        && view[b].0 == self.token_approvals@[b].0);
                }
            }
            assert(view[view.len() - 1] == (token_id, approved@));
            lemma_assoc_map_index(view, view.len() - 1);
            assert forall|j: int| 0 <= j < cview.len()
                implies (#[trigger] cview[j]).0 != token_id by {
                assert(cview[j].0 == cleared[j].0);
            }
            assert(view =~= cview.push((token_id, approved@)));
            lemma_assoc_push(cview, token_id, approved@);
            assert(self.approvals_map() =~= old(self).approvals_map().insert(
                token_id,
                approved@,
            ));
        }
        Ok(())
    }

    /// The approved principal for a token, or `InvalidTokenId`.
    pub fn get_approved(&self, token_id: u64) -> (r: Result<Vec<u8>, Error>)
        ensures
            match r {
                Ok(v) => exists|i: int| 0 <= i < self.token_approvals@.len()
                    && (#[trigger] self.token_approvals@[i]).0 == token_id
                    && self.token_approvals@[i].1@ == v@,
                Err(e) => e == Error::InvalidTokenId && (forall|i: int|
                    0 <= i < self.token_approvals@.len()
                        ==> (#[trigger] self.token_approvals@[i]).0 != token_id),
            },
    {
        match assoc_find(&self.token_approvals, token_id) {
            Some(i) => Ok(crate::tree::copy_bytes(self.token_approvals[i].1.as_slice())),
            None => Err(Error::InvalidTokenId),
        }
    }

    /// Lists a token for sale; only its owner may, and only once.
    pub fn list_item(&mut self, caller: &[u8], token_id: u64, price: u64) -> (r: Result<
        (),
        Error,
    >)
        requires
            old(self).wf(),
        ensures
            final(self).wf(),
            match r {
                Ok(()) => {
                    &&& old(self).owner_of(token_id) == Some(caller@)
                    &&& old(self).listing_of(token_id) is None
                    &&& final(self).listings@ == old(self).listings@.push(
                        (token_id, final(self).listings@.last().1),
                    )
                    &&& final(self).listings@.last().1.seller@ == caller@
                    &&& final(self).listings@.last().1.price == price
                    &&& final(self).listings_map() == old(self).listings_map().insert(
                        token_id,
                        (caller@, price),
                    )
                    &&& final(self).token_approvals == old(self).token_approvals
                    &&& final(self).token_metadata == old(self).token_metadata
                    &&& final(self).operator_approvals == old(self).operator_approvals
                    &&& final(self).name == old(self).name
                    &&& final(self).symbol == old(self).symbol
                    &&& final(self).owner == old(self).owner
                    &&& final(self).total_supply == old(self).total_supply
                    &&& final(self).next_token_id == old(self).next_token_id
                },
                Err(Error::InvalidTokenId) => old(self).owner_of(token_id) is None && *final(self)
                    == *old(self),
                Err(Error::Unauthorized) => old(self).owner_of(token_id) is Some
                    && old(self).owner_of(token_id) != Some(caller@) && *final(self) == *old(self),
                Err(Error::AlreadyListedForSale) => old(self).owner_of(token_id) == Some(caller@)
                    && old(self).listing_of(token_id) is Some && *final(self) == *old(self),
                Err(_) => false,
            },
            final(self).tokens == old(self).tokens,
    {
        let owner_idx = match assoc_find(&self.tokens, token_id) {
            Some(i) => i,
            None => {
                proof {
                    lemma_assoc_contains_view(self.tokens@, token_id);
                }
                return Err(Error::InvalidTokenId);
            },
        };
        proof {
            lemma_tokens_owner(self.tokens@, owner_idx as int, token_id);
        }
        if !bytes_eq(self.tokens[owner_idx].1.as_slice(), caller) {
            return Err(Error::Unauthorized);
        }
        match assoc_find(&self.listings, token_id) {
            Some(li) => {
                proof {
                    lemma_listing_at(self.listings@, li as int);
                }
                return Err(Error::AlreadyListedForSale);
            },
            None => {},
        }
        proof {
            lemma_listing_absent(self.listings@, token_id);
        }
        let ghost before = self.listings@;
        let seller = crate::tree::copy_bytes(caller);
        self.listings.push((token_id, Listing { seller, price }));
        proof {
            assert forall|a: int, b: int| 0 <= a < b < self.listings@.len()
                implies (#[trigger] self.listings@[a]).0 != (#[trigger] self.listings@[b]).0 by {
                assert(self.listings@[a] == before[a]);
                if b < self.listings@.len() - 1 {
                    assert(self.listings@[b] == before[b]);
                }
            }
            let oview = before.map(|i: int, p: (u64, Listing)| (p.0, (p.1.seller@, p.1.price)));
            let view = self.listings@.map(
                |i: int, p: (u64, Listing)| (p.0, (p.1.seller@, p.1.price)),
            );
            assert forall|j: int| 0 <= j < oview.len()
                implies (#[trigger] oview[j]).0 != token_id by {
                assert(oview[j].0 == before[j].0);
            }
            assert(view =~= oview.push((token_id, (caller@, price))));
            lemma_assoc_push(oview, token_id, (caller@, price));
            assert(self.listings@ =~= before.push(self.listings@.last()));
        }
        Ok(())
    }

    /// Withdraws a sale listing; only the seller may.
    pub fn delist_item(&mut self, caller: &[u8], token_id: u64) -> (r: Result<(), Error>)
        requires
            old(self).wf(),
        ensures
            final(self).wf(),
            match r {
                Ok(()) => {
                    &&& old(self).listing_of(token_id) is Some
                    &&& old(self).listing_of(token_id)->Some_0.0 == caller@
                    &&& final(self).listings_map() == old(self).listings_map().remove(token_id)
                    &&& final(self).token_approvals == old(self).token_approvals
                    &&& final(self).token_metadata == old(self).token_metadata
                    &&& final(self).operator_approvals == old(self).operator_approvals
                    &&& final(self).name == old(self).name
                    &&& final(self).symbol == old(self).symbol
                    &&& final(self).owner == old(self).owner
                    &&& final(self).total_supply == old(self).total_supply
                    &&& final(self).next_token_id == old(self).next_token_id
                },
                Err(Error::NotListedForSale) => old(self).listing_of(token_id) is None
                    && *final(self) == *old(self),
                Err(Error::Unauthorized) => old(self).listing_of(token_id) is Some
                    && old(self).listing_of(token_id)->Some_0.0 != caller@ && *final(self)
                    == *old(self),
                Err(_) => false,
            },
            final(self).tokens == old(self).tokens,
    {
        let i = match assoc_find(&self.listings, token_id) {
            Some(i) => i,
            None => {
                proof {
                    lemma_listing_absent(self.listings@, token_id);
                }
                return Err(Error::NotListedForSale);
            },
        };
        proof {
            lemma_listing_at(self.listings@, i as int);
        }
        if !bytes_eq(self.listings[i].1.seller.as_slice(), caller) {
            return Err(Error::Unauthorized);
        }
        self.clear_listing(token_id);
        Ok(())
    }

    /// The listing of a token, or `NotListedForSale`.
    pub fn get_listing(&self, token_id: u64) -> (r: Result<Listing, Error>)
        ensures
            match r {
                Ok(v) => exists|i: int| 0 <= i < self.listings@.len()
                    && (#[trigger] self.listings@[i]).0 == token_id
                    && self.listings@[i].1.seller@ == v.seller@
                    && self.listings@[i].1.price == v.price,
                Err(e) => e == Error::NotListedForSale && (forall|i: int|
                    0 <= i < self.listings@.len()
                        ==> (#[trigger] self.listings@[i]).0 != token_id),
            },
    {
        match assoc_find(&self.listings, token_id) {
            Some(i) => {
                let seller = crate::tree::copy_bytes(self.listings[i].1.seller.as_slice());
                Ok(Listing { seller, price: self.listings[i].1.price })
            },
            None => Err(Error::NotListedForSale),
        }
    }

    /// Buys a listed token: the buyer must differ from the seller, the
    /// seller must still own the token, and on success ownership moves to
    /// the buyer, approval and listing are cleared.
    pub fn buy_item(&mut self, caller: &[u8], token_id: u64) -> (r: Result<(), Error>)
        requires
            old(self).wf(),
        ensures
            final(self).wf(),
            match r {
                Ok(()) => {
                    &&& old(self).listing_of(token_id) is Some
                    &&& old(self).listing_of(token_id)->Some_0.0 != caller@
                    &&& old(self).owner_of(token_id) == Some(
                        old(self).listing_of(token_id)->Some_0.0,
                    )
                    &&& !is_anonymous(caller@)
                    &&& final(self).tokens_map() == old(self).tokens_map().insert(
                        token_id,
                        caller@,
                    )
                    &&& final(self).owner_of(token_id) == Some(caller@)
                    &&& final(self).approvals_map() == old(self).approvals_map().remove(token_id)
                    &&& final(self).listings_map() == old(self).listings_map().remove(token_id)
                    &&& final(self).token_metadata == old(self).token_metadata
                    &&& final(self).operator_approvals == old(self).operator_approvals
                    &&& final(self).name == old(self).name
                    &&& final(self).symbol == old(self).symbol
                    &&& final(self).owner == old(self).owner
                    &&& final(self).total_supply == old(self).total_supply
                    &&& final(self).next_token_id == old(self).next_token_id
                },
                Err(Error::NotListedForSale) => old(self).listing_of(token_id) is None
                    && *final(self) == *old(self),
                Err(Error::CannotBuyOwnNFT) => old(self).listing_of(token_id) is Some
                    && old(self).listing_of(token_id)->Some_0.0 == caller@ && *final(self)
                    == *old(self),
                Err(Error::InvalidTokenId) => old(self).listing_of(token_id) is Some
                    && old(self).listing_of(token_id)->Some_0.0 != caller@
                    && old(self).owner_of(token_id) is None && *final(self) == *old(self),
                Err(Error::Unauthorized) => old(self).listing_of(token_id) is Some
                    && old(self).listing_of(token_id)->Some_0.0 != caller@
                    && old(self).owner_of(token_id) is Some && old(self).owner_of(token_id)
                    != Some(old(self).listing_of(token_id)->Some_0.0) && *final(self)
                    == *old(self),
                Err(Error::ZeroAddress) => old(self).listing_of(token_id) is Some
                    && old(self).listing_of(token_id)->Some_0.0 != caller@
                    && old(self).owner_of(token_id) == Some(
                    old(self).listing_of(token_id)->Some_0.0,
                ) && is_anonymous(caller@) && *final(self) == *old(self),
                Err(_) => false,
            },
    {
        let li = match assoc_find(&self.listings, token_id) {
            Some(i) => i,
            None => {
                proof {
                    lemma_listing_absent(self.listings@, token_id);
                }
                return Err(Error::NotListedForSale);
            },
        };
        proof {
            lemma_listing_at(self.listings@, li as int);
        }
        let seller = crate::tree::copy_bytes(self.listings[li].1.seller.as_slice());
        if bytes_eq(seller.as_slice(), caller) {
            return Err(Error::CannotBuyOwnNFT);
        }
        let buyer = crate::tree::copy_bytes(caller);
        let r = self.transfer_from_internal(seller.as_slice(), buyer, token_id);
        match r {
            Ok(()) => {
                self.clear_listing(token_id);
                Ok(())
            },
            Err(e) => Err(e),
        }
    }

    /// Moves ownership when `from` is the current owner and `to` is not
    /// anonymous; clears the token's approval.
    pub fn transfer_from_internal(&mut self, from: &[u8], to: Vec<u8>, token_id: u64) -> (r:
        Result<(), Error>)
        requires
            old(self).wf(),
        ensures
            final(self).wf(),
            match r {
                Ok(()) => {
                    &&& old(self).owner_of(token_id) == Some(from@)
                    &&& !is_anonymous(to@)
                    &&& final(self).tokens_map() == old(self).tokens_map().insert(token_id, to@)
                    &&& final(self).owner_of(token_id) == Some(to@)
                    &&& final(self).approvals_map() == old(self).approvals_map().remove(token_id)
                    &&& final(self).token_metadata == old(self).token_metadata
                    &&& final(self).operator_approvals == old(self).operator_approvals
                    &&& final(self).name == old(self).name
                    &&& final(self).symbol == old(self).symbol
                    &&& final(self).owner == old(self).owner
                    &&& final(self).total_supply == old(self).total_supply
                    &&& final(self).next_token_id == old(self).next_token_id
                },
                Err(Error::InvalidTokenId) => old(self).owner_of(token_id) is None && *final(self)
                    == *old(self),
                Err(Error::Unauthorized) => old(self).owner_of(token_id) is Some
                    && old(self).owner_of(token_id) != Some(from@) && *final(self) == *old(self),
                Err(Error::ZeroAddress) => old(self).owner_of(token_id) == Some(from@)
                    && is_anonymous(to@) && *final(self) == *old(self),
                Err(_) => false,
            },
            final(self).listings == old(self).listings,
    {
        let owner_idx = match assoc_find(&self.tokens, token_id) {
            Some(i) => i,
            None => {
                proof {
                    lemma_assoc_contains_view(self.tokens@, token_id);
                }
                return Err(Error::InvalidTokenId);
            },
        };
        proof {
            lemma_tokens_owner(self.tokens@, owner_idx as int, token_id);
        }
        if !bytes_eq(self.tokens[owner_idx].1.as_slice(), from) {
            return Err(Error::Unauthorized);
        }
        let anon = anonymous_principal();
        if bytes_eq(to.as_slice(), anon.as_slice()) {
            return Err(Error::ZeroAddress);
        }
        self.set_owner(token_id, owner_idx, to);
        self.clear_approval(token_id);
        Ok(())
    }

    /// The token's descriptive link, or `MetadataNotFound`.
    pub fn token_uri(&self, token_id: u64) -> (r: Result<&Metadata, Error>)
        ensures
            match r {
                Ok(m) => exists|i: int| 0 <= i < self.token_metadata@.len()
                    && (#[trigger] self.token_metadata@[i]).0 == token_id
                    && self.token_metadata@[i].1 == *m,
                Err(e) => e == Error::MetadataNotFound && (forall|i: int|
                    0 <= i < self.token_metadata@.len()
                        ==> (#[trigger] self.token_metadata@[i]).0 != token_id),
            },
    {
        match assoc_find(&self.token_metadata, token_id) {
            Some(i) => Ok(&self.token_metadata[i].1),
            None => Err(Error::MetadataNotFound),
        }
    }

    /// Renames the collection; only the operator may.
    pub fn set_name(&mut self, caller: &[u8], new_name: Vec<u8>) -> (r: Result<(), Error>)
        requires
            old(self).wf(),
            old(self).owner is Some,
        ensures
            final(self).wf(),
            match r {
                Ok(()) => old(self).owner->0@ == caller@ && final(self).name == new_name
                    && final(self).symbol == old(self).symbol,
                Err(e) => e == Error::Unauthorized && old(self).owner->0@ != caller@
                    && *final(self) == *old(self),
            },
            final(self).tokens == old(self).tokens,
            final(self).listings == old(self).listings,
    {
        let is_owner = match &self.owner {
            Some(o) => bytes_eq(o.as_slice(), caller),
            None => false,
        };
        if is_owner {
            self.name = new_name;
            Ok(())
        } else {
            Err(Error::Unauthorized)
        }
    }

    /// Changes the ticker symbol; only the operator may.
    pub fn set_symbol(&mut self, caller: &[u8], new_symbol: Vec<u8>) -> (r: Result<(), Error>)
        requires
            old(self).wf(),
            old(self).owner is Some,
        ensures
            final(self).wf(),
            match r {
                Ok(()) => old(self).owner->0@ == caller@ && final(self).symbol == new_symbol
                    && final(self).name == old(self).name,
                Err(e) => e == Error::Unauthorized && old(self).owner->0@ != caller@
                    && *final(self) == *old(self),
            },
            final(self).tokens == old(self).tokens,
            final(self).listings == old(self).listings,
    {
        let is_owner = match &self.owner {
            Some(o) => bytes_eq(o.as_slice(), caller),
            None => false,
        };
        if is_owner {
            self.symbol = new_symbol;
            Ok(())
        } else {
            Err(Error::Unauthorized)
        }
    }

    /// The collection's name.
    pub fn collection_name(&self) -> (r: Vec<u8>)
        ensures
            r@ == self.name@,
    {
        crate::tree::copy_bytes(self.name.as_slice())
    }

    /// The collection's ticker symbol.
    pub fn collection_symbol(&self) -> (r: Vec<u8>)
        ensures
            r@ == self.symbol@,
    {
        crate::tree::copy_bytes(self.symbol.as_slice())
    }

    /// How many tokens exist.
    pub fn total_supply_count(&self) -> (r: u64)
        ensures
            r == self.total_supply,
    {
        self.total_supply
    }
}

proof fn lemma_assoc_contains_view(s: Seq<(u64, Vec<u8>)>, k: u64)
    requires
        forall|i: int| 0 <= i < s.len() ==> (#[trigger] s[i]).0 != k,
    ensures
        !assoc_map(s.map(|i: int, p: (u64, Vec<u8>)| (p.0, p.1@))).contains_key(k),
{
    let view = s.map(|i: int, p: (u64, Vec<u8>)| (p.0, p.1@));
    assert forall|i: int| 0 <= i < view.len() implies (#[trigger] view[i]).0 != k by {
        assert(view[i].0 == s[i].0);
    }
    lemma_assoc_map_contains(view, k);
}

proof fn lemma_tokens_owner(s: Seq<(u64, Vec<u8>)>, i: int, k: u64)
    requires
        unique_keys(s),
        0 <= i < s.len(),
        s[i].0 == k,
    ensures
        assoc_map(s.map(|j: int, p: (u64, Vec<u8>)| (p.0, p.1@))).contains_key(k),
        assoc_map(s.map(|j: int, p: (u64, Vec<u8>)| (p.0, p.1@)))[k] == s[i].1@,
{
    let view = s.map(|j: int, p: (u64, Vec<u8>)| (p.0, p.1@));
    assert(unique_keys(view)) by {
        assert forall|a: int, b: int| 0 <= a < b < view.len()
            implies (#[trigger] view[a]).0 != (#[trigger] view[b]).0 by {
            assert(view[a].0 == s[a].0 && view[b].0 == s[b].0);
        }
    }
    assert(view[i] == (s[i].0, s[i].1@));
    lemma_assoc_map_index(view, i);
}

/// A listing pair at a known index is the map's binding for its key.
proof fn lemma_listing_at(s: Seq<(u64, Listing)>, i: int)
    requires
        unique_keys(s),
        0 <= i < s.len(),
    ensures
        assoc_map(s.map(|j: int, p: (u64, Listing)| (p.0, (p.1.seller@, p.1.price)))).contains_key(
            s[i].0,
        ),
        assoc_map(s.map(|j: int, p: (u64, Listing)| (p.0, (p.1.seller@, p.1.price))))[s[i].0] == (
            s[i].1.seller@,
            s[i].1.price,
        ),
{
    let view = s.map(|j: int, p: (u64, Listing)| (p.0, (p.1.seller@, p.1.price)));
    assert(unique_keys(view)) by {
        assert forall|a: int, b: int| 0 <= a < b < view.len()
            implies (#[trigger] view[a]).0 != (#[trigger] view[b]).0 by {
            assert(view[a].0 == s[a].0 && view[b].0 == s[b].0);
        }
    }
    assert(view[i] == (s[i].0, (s[i].1.seller@, s[i].1.price)));
    lemma_assoc_map_index(view, i);
}

/// A key missing from the listing pairs is missing from the map.
proof fn lemma_listing_absent(s: Seq<(u64, Listing)>, k: u64)
    requires
        forall|i: int| 0 <= i < s.len() ==> (#[trigger] s[i]).0 != k,
    ensures
        !assoc_map(s.map(|j: int, p: (u64, Listing)| (p.0, (p.1.seller@, p.1.price)))).contains_key(
            k,
        ),
{
    let view = s.map(|j: int, p: (u64, Listing)| (p.0, (p.1.seller@, p.1.price)));
    assert forall|i: int| 0 <= i < view.len() implies (#[trigger] view[i]).0 != k by {
        assert(view[i].0 == s[i].0);
    }
    lemma_assoc_map_contains(view, k);
}

proof fn lemma_unique_remove<T>(s: Seq<(u64, T)>, i: int)
    requires
        unique_keys(s),
        0 <= i < s.len(),
    ensures
        unique_keys(s.remove(i)),
{
    let s2 = s.remove(i);
    assert forall|a: int, b: int| 0 <= a < b < s2.len()
        implies (#[trigger] s2[a]).0 != (#[trigger] s2[b]).0 by {
        let a0: int = if a < i { a } else { a + 1 };
        let b0: int = if b < i { b } else { b + 1 };
        assert(s2[a] == s[a0] && s2[b] == s[b0]);
    }
}


/// How many pairs bind a given owner.
pub open spec fn owned_count(s: Seq<(u64, Vec<u8>)>, owner: Seq<u8>) -> nat
    decreases s.len(),
{
    if s.len() == 0 {
        0
    } else {
        owned_count(s.drop_last(), owner) + (if s.last().1@ == owner {
            1nat
        } else {
            0nat
        })
    }
}


/// Whether `operator` stands in `owner`'s operator set.
pub open spec fn operator_approved(
    s: Seq<(Vec<u8>, Vec<Vec<u8>>)>,
    owner: Seq<u8>,
    operator: Seq<u8>,
) -> bool {
    exists|i: int, j: int|
        #![trigger s[i].1@[j]]
        0 <= i < s.len() && s[i].0@ == owner && 0 <= j < s[i].1@.len() && s[i].1@[j]@ == operator
}

impl State {
    /// Index of an owner's entry in the operator-approval list.
    fn find_operator_entry(&self, owner: &[u8]) -> (r: Option<usize>)
        ensures
            r is Some ==> r->Some_0 < self.operator_approvals@.len()
                && self.operator_approvals@[r->Some_0 as int].0@ == owner@,
            r is None ==> forall|i: int| 0 <= i < self.operator_approvals@.len()
                ==> (#[trigger] self.operator_approvals@[i]).0@ != owner@,
    {
        let mut i: usize = 0;
        while i < self.operator_approvals.len()
            invariant
                i <= self.operator_approvals@.len(),
                forall|j: int| 0 <= j < i ==> (#[trigger] self.operator_approvals@[j]).0@
                    != owner@,
            decreases self.operator_approvals.len() - i,
        {
            if bytes_eq(self.operator_approvals[i].0.as_slice(), owner) {
                return Some(i);
            }
            i += 1;
        }
        None
    }

    /// Whether `operator` may act for `owner` on every token.
    pub fn is_approved_for_all(&self, owner: &[u8], operator: &[u8]) -> (r: bool)
        ensures
            r == operator_approved(self.operator_approvals@, owner@, operator@),
    {
        let ghost s = self.operator_approvals@;
        let mut i: usize = 0;
        while i < self.operator_approvals.len()
            invariant
                s == self.operator_approvals@,
                i <= s.len(),
                forall|ii: int, jj: int|
                    #![trigger s[ii].1@[jj]]
                    0 <= ii < i && s[ii].0@ == owner@ && 0 <= jj < s[ii].1@.len()
                        ==> s[ii].1@[jj]@ != operator@,
            decreases self.operator_approvals.len() - i,
        {
            if bytes_eq(self.operator_approvals[i].0.as_slice(), owner) {
                let set = &self.operator_approvals[i].1;
                proof {
                    assert(set@ == s[i as int].1@);
                }
                let mut j: usize = 0;
                while j < set.len()
                    invariant
                        s == self.operator_approvals@,
                        i < s.len(),
                        s[i as int].0@ == owner@,
                        set@ == s[i as int].1@,
                        j <= set@.len(),
                        forall|jj: int| 0 <= jj < j ==> (#[trigger] set@[jj])@ != operator@,
                    decreases set.len() - j,
                {
                    if bytes_eq(set[j].as_slice(), operator) {
                        proof {
                            assert(s[i as int].0@ == owner@);
                            assert(0 <= j < s[i as int].1@.len());
                            assert(s[i as int].1@[j as int]@ == operator@);
                            assert(operator_approved(s, owner@, operator@));
                        }
                        return true;
                    }
                    j += 1;
                }
                proof {
                    assert forall|jj: int| 0 <= jj < s[i as int].1@.len()
                        implies (#[trigger] s[i as int].1@[jj])@ != operator@ by {
                        assert(set@[jj] == s[i as int].1@[jj]);
                    }
                }
            }
            i += 1;
        }
        false
    }

    /// Grants or withdraws blanket approval of `operator` over the
    /// caller's tokens; approving oneself is a silent no-op.
    pub fn set_approval_for_all(&mut self, caller: &[u8], operator: Vec<u8>, approved: bool) -> (r:
        Result<(), Error>)
        requires
            old(self).wf(),
        ensures
            final(self).wf(),
            r is Ok,
            caller@ == operator@ ==> *final(self) == *old(self),
            caller@ != operator@ && approved ==> operator_approved(
                final(self).operator_approvals@,
                caller@,
                operator@,
            ),
            caller@ != operator@ && !approved ==> !operator_approved(
                final(self).operator_approvals@,
                caller@,
                operator@,
            ),
            forall|o: Seq<u8>, p: Seq<u8>| o != caller@ ==> (operator_approved(
                final(self).operator_approvals@,
                o,
                p,
            ) <==> operator_approved(old(self).operator_approvals@, o, p)),
            forall|p: Seq<u8>| p != operator@ ==> (operator_approved(
                final(self).operator_approvals@,
                caller@,
                p,
            ) <==> operator_approved(old(self).operator_approvals@, caller@, p)),
            final(self).tokens == old(self).tokens,
            final(self).token_approvals == old(self).token_approvals,
            final(self).token_metadata == old(self).token_metadata,
            final(self).listings == old(self).listings,
            final(self).name == old(self).name,
            final(self).symbol == old(self).symbol,
            final(self).owner == old(self).owner,
            final(self).total_supply == old(self).total_supply,
            final(self).next_token_id == old(self).next_token_id,
    {
        if bytes_eq(caller, operator.as_slice()) {
            return Ok(());
        }
        let ghost s0 = self.operator_approvals@;
        match self.find_operator_entry(caller) {
            Some(i) => {
                let (key, set) = self.operator_approvals.remove(i);
                let mut new_set: Vec<Vec<u8>> = Vec::new();
                let mut j: usize = 0;
                while j < set.len()
                    invariant
                        j <= set@.len(),
                        forall|jj: int| 0 <= jj < new_set@.len()
                            ==> (#[trigger] new_set@[jj])@ != operator@,
                        forall|jj: int| 0 <= jj < new_set@.len()
                            ==> exists|kk: int| 0 <= kk < set@.len()
                                && (#[trigger] new_set@[jj])@ == set@[kk]@,
                        forall|kk: int| 0 <= kk < j && (#[trigger] set@[kk])@ != operator@
                            ==> exists|jj: int| 0 <= jj < new_set@.len()
                                && new_set@[jj]@ == set@[kk]@,
                    decreases set.len() - j,
                {
                    let ghost prev_ns = new_set@;
                    if !bytes_eq(set[j].as_slice(), operator.as_slice()) {
                        let retained = crate::tree::copy_bytes(set[j].as_slice());
                        proof {
                            assert(retained@ == set@[j as int]@);
                        }
                        new_set.push(retained);
                    }
                    proof {
                        assert forall|kk: int|
                            0 <= kk < j + 1 && (#[trigger] set@[kk])@ != operator@
                            implies exists|jj: int| 0 <= jj < new_set@.len() && new_set@[jj]@
                                == set@[kk]@ by {
                            if kk < j {
                                let jj = choose|jj: int| 0 <= jj < prev_ns.len() && prev_ns[jj]@
                                    == set@[kk]@;
                                assert(new_set@[jj]@ == set@[kk]@);
                            } else {
                                let last: int = new_set@.len() - 1;
                                assert(new_set@[last]@ == set@[j as int]@);
                            }
                        }
                    }
                    j += 1;
                }
                let ghost kept = new_set@;
                if approved {
                    new_set.push(operator);
                }
                let ghost ns = new_set@;
                self.operator_approvals.insert(i, (key, new_set));
                proof {
                    let s2 = self.operator_approvals@;
                    assert(s2 =~= s0.update(i as int, (s0[i as int].0, s2[i as int].1)));
                    assert forall|a: int, b: int| 0 <= a < b < s2.len()
                        implies (#[trigger] s2[a]).0@ != (#[trigger] s2[b]).0@ by {
                        assert(s2[a].0@ == s0[a].0@ && s2[b].0@ == s0[b].0@);
                    }
                    if approved {
                        let last: int = s2[i as int].1@.len() - 1;
                        assert(s2[i as int].1@[last]@ == operator@);
                    } else {
                        assert forall|ii: int, jj: int|
                            #![trigger s2[ii].1@[jj]]
                            0 <= ii < s2.len() && s2[ii].0@ == caller@ && 0 <= jj
                                < s2[ii].1@.len() implies s2[ii].1@[jj]@ != operator@ by {
                            if ii != i {
                                assert(s2[ii].0@ == s0[ii].0@);
                                assert(s0[i as int].0@ == caller@);
                            }
                        }
                    }
                    assert(s2[i as int].1@ == ns);
                    assert(s2[i as int].0@ == caller@);
                    assert forall|o: Seq<u8>, p: Seq<u8>| o != caller@ implies (operator_approved(
                        s2,
                        o,
                        p,
                    ) <==> operator_approved(s0, o, p)) by {
                        if operator_approved(s2, o, p) {
                            let (ii, jj) = choose|ii: int, jj: int|
                                #![trigger s2[ii].1@[jj]]
                                0 <= ii < s2.len() && s2[ii].0@ == o && 0 <= jj < s2[ii].1@.len()
                                    && s2[ii].1@[jj]@ == p;
                            assert(ii != i);
                            assert(s2[ii] == s0[ii]);
                            assert(s0[ii].1@[jj]@ == p);
                        }
                        if operator_approved(s0, o, p) {
                            let (ii, jj) = choose|ii: int, jj: int|
                                #![trigger s0[ii].1@[jj]]
                                0 <= ii < s0.len() && s0[ii].0@ == o && 0 <= jj < s0[ii].1@.len()
                                    && s0[ii].1@[jj]@ == p;
                            assert(ii != i);
                            assert(s2[ii] == s0[ii]);
                            assert(s2[ii].1@[jj]@ == p);
                        }
                    }
                    assert forall|p: Seq<u8>| p != operator@ implies (operator_approved(
                        s2,
                        caller@,
                        p,
                    ) <==> operator_approved(s0, caller@, p)) by {
                        if operator_approved(s2, caller@, p) {
                            let (ii, jj) = choose|ii: int, jj: int|
                                #![trigger s2[ii].1@[jj]]
                                0 <= ii < s2.len() && s2[ii].0@ == caller@ && 0 <= jj
                                    < s2[ii].1@.len() && s2[ii].1@[jj]@ == p;
                            if ii != i {
                                assert(s2[ii] == s0[ii]);
                                assert(s0[i as int].0@ == caller@);
                                assert(false);
                            }
                            assert(ns[jj]@ == p);
                            assert(0 <= jj < kept.len());
                            let kk = choose|kk: int| 0 <= kk < set@.len() && kept[jj]@
                                == set@[kk]@;
                            assert(s0[i as int].1@[kk]@ == p);
                        }
                        if operator_approved(s0, caller@, p) {
                            let (ii, jj) = choose|ii: int, jj: int|
                                #![trigger s0[ii].1@[jj]]
                                0 <= ii < s0.len() && s0[ii].0@ == caller@ && 0 <= jj
                                    < s0[ii].1@.len() && s0[ii].1@[jj]@ == p;
                            if ii != i {
                                assert(s0[i as int].0@ == caller@);
                                assert(false);
                            }
                            assert(set@[jj]@ == p);
                            let jj2 = choose|jj2: int| 0 <= jj2 < kept.len() && kept[jj2]@
                                == set@[jj]@;
                            assert(ns[jj2] == kept[jj2]);
                            assert(s2[i as int].1@[jj2]@ == p);
                        }
                    }
                }
                Ok(())
            },
            None => {
                if approved {
                    let key = crate::tree::copy_bytes(caller);
                    let mut set: Vec<Vec<u8>> = Vec::new();
                    set.push(operator);
                    self.operator_approvals.push((key, set));
                    proof {
                        let s2 = self.operator_approvals@;
                        assert forall|a: int, b: int| 0 <= a < b < s2.len()
                            implies (#[trigger] s2[a]).0@ != (#[trigger] s2[b]).0@ by {
                            assert(s2[a] == s0[a]);
                            if b < s2.len() - 1 {
                                assert(s2[b] == s0[b]);
                            } else {
                                assert(s2[b].0@ == caller@);
                            }
                        }
                        let last: int = s2.len() - 1;
                        assert(s2[last].0@ == caller@ && s2[last].1@[0]@ == operator@);
                        assert forall|o: Seq<u8>, p: Seq<u8>| o != caller@
                            implies (operator_approved(s2, o, p) <==> operator_approved(
                            s0,
                            o,
                            p,
                        )) by {
                            if operator_approved(s2, o, p) {
                                let (ii, jj) = choose|ii: int, jj: int|
                                    #![trigger s2[ii].1@[jj]]
                                    0 <= ii < s2.len() && s2[ii].0@ == o && 0 <= jj
                                        < s2[ii].1@.len() && s2[ii].1@[jj]@ == p;
                                assert(ii != last);
                                assert(s2[ii] == s0[ii]);
                                assert(s0[ii].1@[jj]@ == p);
                            }
                            if operator_approved(s0, o, p) {
                                let (ii, jj) = choose|ii: int, jj: int|
                                    #![trigger s0[ii].1@[jj]]
                                    0 <= ii < s0.len() && s0[ii].0@ == o && 0 <= jj
                                        < s0[ii].1@.len() && s0[ii].1@[jj]@ == p;
                                assert(s2[ii] == s0[ii]);
                                assert(s2[ii].1@[jj]@ == p);
                            }
                        }
                        assert forall|p: Seq<u8>| p != operator@ implies (operator_approved(
                            s2,
                            caller@,
                            p,
                        ) <==> operator_approved(s0, caller@, p)) by {
                            if operator_approved(s2, caller@, p) {
                                let (ii, jj) = choose|ii: int, jj: int|
                                    #![trigger s2[ii].1@[jj]]
                                    0 <= ii < s2.len() && s2[ii].0@ == caller@ && 0 <= jj
                                        < s2[ii].1@.len() && s2[ii].1@[jj]@ == p;
                                if ii != last {
                                    assert(s2[ii] == s0[ii]);
                                    assert(s0[ii].0@ != caller@);
                                    assert(false);
                                }
                                assert(s2[last].1@.len() == 1);
                                assert(false);
                            }
                            if operator_approved(s0, caller@, p) {
                                let (ii, jj) = choose|ii: int, jj: int|
                                    #![trigger s0[ii].1@[jj]]
                                    0 <= ii < s0.len() && s0[ii].0@ == caller@ && 0 <= jj
                                        < s0[ii].1@.len() && s0[ii].1@[jj]@ == p;
                                assert(s0[ii].0@ != caller@);
                                assert(false);
                            }
                        }
                    }
                } else {
                    proof {
                        assert forall|ii: int, jj: int|
                            #![trigger self.operator_approvals@[ii].1@[jj]]
                            0 <= ii < self.operator_approvals@.len()
                                && self.operator_approvals@[ii].0@ == caller@ && 0 <= jj
                                < self.operator_approvals@[ii].1@.len()
                            implies self.operator_approvals@[ii].1@[jj]@ != operator@ by {
                        }
                    }
                }
                Ok(())
            },
        }
    }

    /// Like `transfer_from`, refusing the anonymous recipient up front.
    pub fn safe_transfer_from(
        &mut self,
        caller: &[u8],
        from: &[u8],
        to: Vec<u8>,
        token_id: u64,
    ) -> (r: Result<(), Error>)
        requires
            old(self).wf(),
        ensures
            final(self).wf(),
            match r {
                Ok(()) => {
                    &&& old(self).owner_of(token_id) is Some
                    &&& old(self).transfer_authorized(caller@, from@, token_id)
                    &&& !is_anonymous(to@)
                    &&& final(self).tokens_map() == old(self).tokens_map().insert(token_id, to@)
                    &&& final(self).owner_of(token_id) == Some(to@)
                    &&& final(self).approvals_map() == old(self).approvals_map().remove(token_id)
                    &&& final(self).listings_map() == old(self).listings_map().remove(token_id)
                    &&& final(self).token_metadata == old(self).token_metadata
                    &&& final(self).operator_approvals == old(self).operator_approvals
                    &&& final(self).name == old(self).name
                    &&& final(self).symbol == old(self).symbol
                    &&& final(self).owner == old(self).owner
                    &&& final(self).total_supply == old(self).total_supply
                    &&& final(self).next_token_id == old(self).next_token_id
                },
                Err(Error::InvalidTokenId) => !is_anonymous(to@) && old(self).owner_of(token_id)
                    is None && *final(self) == *old(self),
                Err(Error::ZeroAddress) => is_anonymous(to@) && *final(self) == *old(self),
                Err(Error::Unauthorized) => !is_anonymous(to@) && old(self).owner_of(token_id)
                    is Some && !old(self).transfer_authorized(caller@, from@, token_id)
                    && *final(self) == *old(self),
                Err(_) => false,
            },
    {
        let anon = anonymous_principal();
        if bytes_eq(to.as_slice(), anon.as_slice()) {
            return Err(Error::ZeroAddress);
        }
        self.transfer_from(caller, from, to, token_id)
    }
}

} // verus!
