use certified_assets::registry::{Error, Listing, Metadata, State};

fn meta(name: &str) -> Metadata {
    Metadata {
        name: name.to_string(),
        description: "a token".to_string(),
        media_url: "ipfs://example".to_string(),
    }
}

fn alice() -> Vec<u8> {
    b"alice".to_vec()
}

fn bob() -> Vec<u8> {
    b"bob".to_vec()
}

#[test]
fn default_state_is_empty_with_fixed_naming() {
    let s = State::default();
    assert_eq!(s.name, b"MyNFT".to_vec());
    assert_eq!(s.symbol, b"MNFT".to_vec());
    assert_eq!(s.owner, Some(vec![4u8]));
    assert_eq!(s.total_supply, 0);
    assert_eq!(s.next_token_id, 1);
    assert!(s.tokens.is_empty());
}

#[test]
fn init_prefers_the_given_owner_and_falls_back_to_the_caller() {
    let mut s = State::default();
    s.init(Some(alice()), b"ignored");
    assert_eq!(s.owner, Some(alice()));
    let mut s2 = State::default();
    s2.init(None, b"carol");
    assert_eq!(s2.owner, Some(b"carol".to_vec()));
}

#[test]
fn mint_assigns_fresh_ids_and_records_ownership() {
    let mut s = State::default();
    let id1 = s.mint(alice(), meta("first")).unwrap();
    let id2 = s.mint(bob(), meta("second")).unwrap();
    assert_eq!(id1, 1);
    assert_eq!(id2, 2);
    assert_eq!(s.total_supply, 2);
    assert_eq!(s.owner_of_token(1).unwrap(), alice());
    assert_eq!(s.owner_of_token(2).unwrap(), bob());
    assert_eq!(s.owner_of_token(3), Err(Error::InvalidTokenId));
}

#[test]
fn balance_counts_only_the_owners_tokens() {
    let mut s = State::default();
    s.mint(alice(), meta("a")).unwrap();
    s.mint(bob(), meta("b")).unwrap();
    s.mint(alice(), meta("c")).unwrap();
    assert_eq!(s.balance_of(b"alice"), 2);
    assert_eq!(s.balance_of(b"bob"), 1);
    assert_eq!(s.balance_of(b"nobody"), 0);
}

#[test]
fn transfer_moves_ownership_and_clears_approval() {
    let mut s = State::default();
    let id = s.mint(alice(), meta("a")).unwrap();
    s.approve(b"alice", bob(), id).unwrap();
    assert_eq!(s.get_approved(id).unwrap(), bob());
    s.transfer_from(b"alice", b"alice", bob(), id).unwrap();
    assert_eq!(s.owner_of_token(id).unwrap(), bob());
    assert_eq!(s.get_approved(id), Err(Error::InvalidTokenId));
}

#[test]
fn approved_principal_may_transfer() {
    let mut s = State::default();
    let id = s.mint(alice(), meta("a")).unwrap();
    s.approve(b"alice", bob(), id).unwrap();
    s.transfer_from(b"bob", b"alice", b"carol".to_vec(), id).unwrap();
    assert_eq!(s.owner_of_token(id).unwrap(), b"carol".to_vec());
}

#[test]
fn transfer_refusals() {
    let mut s = State::default();
    let id = s.mint(alice(), meta("a")).unwrap();
    assert_eq!(
        s.transfer_from(b"mallory", b"bob", alice(), id),
        Err(Error::Unauthorized)
    );
    assert_eq!(
        s.transfer_from(b"alice", b"alice", vec![4u8], id),
        Err(Error::ZeroAddress)
    );
    assert_eq!(
        s.transfer_from(b"alice", b"alice", bob(), 99),
        Err(Error::InvalidTokenId)
    );
    assert_eq!(s.owner_of_token(id).unwrap(), alice());
}

#[test]
fn approve_requires_the_owner() {
    let mut s = State::default();
    let id = s.mint(alice(), meta("a")).unwrap();
    assert_eq!(s.approve(b"bob", bob(), id), Err(Error::Unauthorized));
    assert_eq!(s.approve(b"alice", bob(), 42), Err(Error::InvalidTokenId));
}

#[test]
fn listing_lifecycle() {
    let mut s = State::default();
    let id = s.mint(alice(), meta("a")).unwrap();
    assert!(matches!(s.get_listing(id), Err(Error::NotListedForSale)));
    s.list_item(b"alice", id, 250).unwrap();
    let listing: Listing = s.get_listing(id).unwrap();
    assert_eq!(listing.seller, alice());
    assert_eq!(listing.price, 250);
    assert_eq!(
        s.list_item(b"alice", id, 300),
        Err(Error::AlreadyListedForSale)
    );
    assert_eq!(s.delist_item(b"bob", id), Err(Error::Unauthorized));
    s.delist_item(b"alice", id).unwrap();
    assert!(matches!(s.get_listing(id), Err(Error::NotListedForSale)));
}

#[test]
fn buying_moves_the_token_and_removes_the_listing() {
    let mut s = State::default();
    let id = s.mint(alice(), meta("a")).unwrap();
    s.list_item(b"alice", id, 10).unwrap();
    assert_eq!(s.buy_item(b"alice", id), Err(Error::CannotBuyOwnNFT));
    s.buy_item(b"bob", id).unwrap();
    assert_eq!(s.owner_of_token(id).unwrap(), bob());
    assert!(matches!(s.get_listing(id), Err(Error::NotListedForSale)));
    assert_eq!(s.buy_item(b"carol", id), Err(Error::NotListedForSale));
}

#[test]
fn transfer_also_removes_the_listing() {
    let mut s = State::default();
    let id = s.mint(alice(), meta("a")).unwrap();
    s.list_item(b"alice", id, 10).unwrap();
    s.transfer_from(b"alice", b"alice", bob(), id).unwrap();
    assert!(matches!(s.get_listing(id), Err(Error::NotListedForSale)));
}

#[test]
fn metadata_lookup_and_naming() {
    let mut s = State::default();
    let id = s.mint(alice(), meta("first")).unwrap();
    assert_eq!(s.token_uri(id).unwrap().media_url, "ipfs://example");
    assert!(matches!(s.token_uri(99), Err(Error::MetadataNotFound)));
    s.init(Some(alice()), b"alice");
    assert_eq!(
        s.set_name(b"bob", b"Stolen".to_vec()),
        Err(Error::Unauthorized)
    );
    s.set_name(b"alice", b"Gallery".to_vec()).unwrap();
    s.set_symbol(b"alice", b"GAL".to_vec()).unwrap();
    assert_eq!(s.collection_name(), b"Gallery".to_vec());
    assert_eq!(s.collection_symbol(), b"GAL".to_vec());
    assert_eq!(s.total_supply_count(), 1);
}

#[test]
fn operator_approval_allows_and_withdrawal_forbids_transfers() {
    let mut s = State::default();
    let id = s.mint(alice(), meta("a")).unwrap();
    assert!(!s.is_approved_for_all(b"alice", b"bob"));
    s.set_approval_for_all(b"alice", bob(), true).unwrap();
    assert!(s.is_approved_for_all(b"alice", b"bob"));
    s.transfer_from(b"bob", b"alice", b"carol".to_vec(), id).unwrap();
    assert_eq!(s.owner_of_token(id).unwrap(), b"carol".to_vec());
    s.set_approval_for_all(b"carol", bob(), true).unwrap();
    s.set_approval_for_all(b"carol", bob(), false).unwrap();
    assert!(!s.is_approved_for_all(b"carol", b"bob"));
    // With no operator approval left for a non-owner `from`, nothing
    // authorizes the transfer.
    assert_eq!(
        s.transfer_from(b"bob", b"dave", alice(), id),
        Err(Error::Unauthorized)
    );
}

#[test]
fn approving_oneself_changes_nothing() {
    let mut s = State::default();
    s.set_approval_for_all(b"alice", alice(), true).unwrap();
    assert!(!s.is_approved_for_all(b"alice", b"alice"));
}

#[test]
fn safe_transfer_rejects_the_anonymous_recipient() {
    let mut s = State::default();
    let id = s.mint(alice(), meta("a")).unwrap();
    assert_eq!(
        s.safe_transfer_from(b"alice", b"alice", vec![4u8], id),
        Err(Error::ZeroAddress)
    );
    s.safe_transfer_from(b"alice", b"alice", bob(), id).unwrap();
    assert_eq!(s.owner_of_token(id).unwrap(), bob());
}

#[test]
fn an_operator_may_grant_per_token_approval() {
    let mut s = State::default();
    let id = s.mint(alice(), meta("a")).unwrap();
    s.set_approval_for_all(b"alice", bob(), true).unwrap();
    s.approve(b"bob", b"carol".to_vec(), id).unwrap();
    assert_eq!(s.get_approved(id).unwrap(), b"carol".to_vec());
    s.transfer_from(b"carol", b"alice", b"carol".to_vec(), id)
        .unwrap();
    assert_eq!(s.owner_of_token(id).unwrap(), b"carol".to_vec());
}

#[test]
fn a_fresh_registry_has_no_operator_approvals() {
    let s = State::default();
    assert!(s.operator_approvals.is_empty());
    assert!(!s.is_approved_for_all(&[4u8], &[4u8]));
}
