use erc721::{AccountId, Erc721, Error, ForSale, NftData, TokenId, Transfer};

fn owner_o() -> AccountId {
    AccountId::from_bytes([1u8; 32])
}

fn buyer_b() -> AccountId {
    AccountId::from_bytes([2u8; 32])
}

fn null() -> AccountId {
    AccountId::from_bytes([0u8; 32])
}

fn meta(s: &str) -> NftData {
    NftData { poebat: Some(s.to_string()) }
}

/// Everything a caller can observe of the ledger, for before/after comparisons.
fn snapshot(l: &Erc721) -> (Vec<(TokenId, NftData)>, Vec<TokenId>, Vec<TokenId>, Vec<ForSale>, Vec<Transfer>) {
    (
        l.get_all_tokens(),
        l.tokens_of_owner(owner_o()),
        l.tokens_of_owner(buyer_b()),
        l.get_tokens_for_sale(),
        l.recorded_events().clone(),
    )
}

#[test]
fn scenario_three_mints_in_order() {
    let mut l = Erc721::new();
    for id in 1..=3 {
        assert_eq!(l.mint(owner_o(), id, meta("m")), Ok(()));
    }
    let ids: Vec<TokenId> = l.get_all_tokens().iter().map(|p| p.0).collect();
    assert_eq!(ids, vec![1, 2, 3]);
    assert_eq!(l.balance_of(owner_o()), 3);
}

#[test]
fn scenario_publish_then_unlist() {
    let mut l = Erc721::new();
    assert_eq!(l.mint(owner_o(), 1, meta("m")), Ok(()));
    assert_eq!(l.publish_for_sale(owner_o(), 1, 10), Ok(()));
    assert_eq!(l.get_tokens_for_sale(), vec![ForSale { id: 1, price: 10 }]);
    assert_eq!(l.remove_from_sale(owner_o(), 1), Ok(()));
    assert_eq!(l.get_tokens_for_sale(), vec![]);
    assert_eq!(l.remove_from_sale(owner_o(), 1), Err(Error::NotForSale));
}

#[test]
fn scenario_purchase() {
    let mut l = Erc721::new();
    assert_eq!(l.mint(owner_o(), 1, meta("m")), Ok(()));
    assert_eq!(l.publish_for_sale(owner_o(), 1, 10), Ok(()));
    assert_eq!(l.purchase_quote(buyer_b(), 1, 5), Err(Error::NotEnoughSent));
    assert_eq!(l.buy_nft(buyer_b(), 1, 5, true), Err(Error::NotEnoughSent));
    // Overpaying is accepted; exactly the listed price goes to the owner.
    assert_eq!(l.purchase_quote(buyer_b(), 1, 12), Ok((owner_o(), 10)));
    assert_eq!(l.purchase_quote(buyer_b(), 1, 10), Ok((owner_o(), 10)));
    assert_eq!(l.buy_nft(buyer_b(), 1, 10, true), Ok(()));
    assert_eq!(l.owner_of(1), Some(buyer_b()));
    assert_eq!(l.get_tokens_for_sale(), vec![]);
    assert_eq!(l.tokens_of_owner(owner_o()), Vec::<TokenId>::new());
    assert_eq!(l.tokens_of_owner(buyer_b()), vec![1]);
    assert_eq!(
        l.recorded_events().last(),
        Some(&Transfer { from: Some(owner_o()), to: Some(buyer_b()), id: 1 })
    );
}

#[test]
fn scenario_failures_on_missing_or_foreign_tokens() {
    let mut l = Erc721::new();
    assert_eq!(l.mint(owner_o(), 1, meta("m")), Ok(()));
    assert_eq!(l.burn(buyer_b(), 1), Err(Error::NotOwner));
    assert_eq!(l.burn(owner_o(), 99), Err(Error::TokenNotFound));
    assert_eq!(l.transfer(owner_o(), buyer_b(), 99), Err(Error::TokenNotFound));
}

#[test]
fn scenario_transfer_keeps_global_order() {
    let mut l = Erc721::new();
    assert_eq!(l.mint(owner_o(), 1, meta("a")), Ok(()));
    assert_eq!(l.mint(owner_o(), 2, meta("b")), Ok(()));
    assert_eq!(l.transfer(owner_o(), buyer_b(), 2), Ok(()));
    let ids: Vec<TokenId> = l.get_all_tokens().iter().map(|p| p.0).collect();
    assert_eq!(ids, vec![1, 2]);
    assert_eq!(l.owner_of(2), Some(buyer_b()));
    assert_eq!(l.tokens_of_owner(owner_o()), vec![1]);
}

#[test]
fn balance_agrees_with_token_lists() {
    let mut l = Erc721::new();
    for id in 1..=5 {
        assert_eq!(l.mint(owner_o(), id, meta("m")), Ok(()));
    }
    assert_eq!(l.transfer(owner_o(), buyer_b(), 4), Ok(()));
    assert_eq!(l.transfer_from(owner_o(), buyer_b(), 2), Ok(()));
    assert_eq!(l.burn(owner_o(), 5), Ok(()));
    for a in [owner_o(), buyer_b(), null()] {
        let owned = l.tokens_of_owner(a);
        let counted = l.get_all_tokens().iter().filter(|p| l.owner_of(p.0) == Some(a)).count();
        assert_eq!(l.balance_of(a) as usize, owned.len());
        assert_eq!(owned.len(), counted);
    }
    assert_eq!(l.tokens_of_owner(buyer_b()), vec![4, 2]);
    assert_eq!(l.tokens_of_owner(owner_o()), vec![1, 3]);
}

#[test]
fn mint_then_read_and_burn() {
    let mut l = Erc721::new();
    assert_eq!(l.mint(owner_o(), 7, meta("seven")), Ok(()));
    assert_eq!(l.get_nft_info(7), Ok(meta("seven")));
    assert_eq!(l.burn(owner_o(), 7), Ok(()));
    assert_eq!(l.owner_of(7), None);
    assert_eq!(l.get_nft_info(7), Err(Error::TokenNotFound));
    // The id may be minted again once burned.
    assert_eq!(l.mint(buyer_b(), 7, NftData { poebat: None }), Ok(()));
    assert_eq!(l.get_nft_info(7), Ok(NftData { poebat: None }));
}

#[test]
fn failed_operations_change_nothing() {
    let mut l = Erc721::new();
    assert_eq!(l.mint(owner_o(), 1, meta("a")), Ok(()));
    assert_eq!(l.mint(owner_o(), 2, meta("b")), Ok(()));
    assert_eq!(l.publish_for_sale(owner_o(), 1, 10), Ok(()));
    let before = snapshot(&l);
    assert_eq!(l.mint(buyer_b(), 1, meta("x")), Err(Error::TokenExists));
    assert_eq!(l.mint(null(), 3, meta("x")), Err(Error::NotAllowed));
    assert_eq!(l.transfer(buyer_b(), owner_o(), 1), Err(Error::NotApproved));
    assert_eq!(l.transfer(owner_o(), null(), 1), Err(Error::NotAllowed));
    assert_eq!(l.transfer_from(null(), buyer_b(), 2), Err(Error::NotApproved));
    assert_eq!(l.burn(buyer_b(), 2), Err(Error::NotOwner));
    assert_eq!(l.publish_for_sale(owner_o(), 1, 20), Err(Error::AlreadyForSale));
    assert_eq!(l.publish_for_sale(buyer_b(), 2, 20), Err(Error::NotApproved));
    assert_eq!(l.publish_for_sale(owner_o(), 9, 20), Err(Error::TokenNotFound));
    assert_eq!(l.remove_from_sale(owner_o(), 2), Err(Error::NotForSale));
    assert_eq!(l.remove_from_sale(buyer_b(), 1), Err(Error::NotApproved));
    assert_eq!(l.remove_from_sale(owner_o(), 9), Err(Error::TokenNotFound));
    assert_eq!(l.buy_nft(owner_o(), 1, 10, true), Err(Error::NotApproved));
    assert_eq!(l.buy_nft(buyer_b(), 2, 10, true), Err(Error::NotForSale));
    assert_eq!(l.buy_nft(buyer_b(), 9, 10, true), Err(Error::TokenNotFound));
    assert_eq!(l.buy_nft(null(), 1, 10, true), Err(Error::NotAllowed));
    assert_eq!(l.buy_nft(buyer_b(), 1, 10, false), Err(Error::CannotMakeTransfer));
    assert_eq!(l.get_nft_info(9), Err(Error::TokenNotFound));
    assert!(snapshot(&l) == before);
}

#[test]
fn listing_follows_publish_remove_and_buy() {
    let mut l = Erc721::new();
    for id in 1..=3 {
        assert_eq!(l.mint(owner_o(), id, meta("m")), Ok(()));
        assert_eq!(l.publish_for_sale(owner_o(), id, 100 + id as u128), Ok(()));
    }
    assert_eq!(l.remove_from_sale(owner_o(), 2), Ok(()));
    assert_eq!(l.buy_nft(buyer_b(), 3, 1000, true), Ok(()));
    assert_eq!(l.get_tokens_for_sale(), vec![ForSale { id: 1, price: 101 }]);
    // A plain transfer leaves the listing to the new owner's care.
    assert_eq!(l.transfer(owner_o(), buyer_b(), 1), Ok(()));
    assert_eq!(l.get_tokens_for_sale(), vec![ForSale { id: 1, price: 101 }]);
    assert_eq!(l.remove_from_sale(owner_o(), 1), Err(Error::NotApproved));
    assert_eq!(l.remove_from_sale(buyer_b(), 1), Ok(()));
    assert_eq!(l.get_tokens_for_sale(), vec![]);
}

#[test]
fn notifications_record_every_ownership_change() {
    let mut l = Erc721::new();
    assert_eq!(l.mint(owner_o(), 1, meta("m")), Ok(()));
    assert_eq!(l.transfer(owner_o(), buyer_b(), 1), Ok(()));
    assert_eq!(l.burn(buyer_b(), 1), Ok(()));
    assert_eq!(l.burn(buyer_b(), 1), Err(Error::TokenNotFound));
    assert_eq!(
        l.recorded_events().clone(),
        vec![
            Transfer { from: None, to: Some(owner_o()), id: 1 },
            Transfer { from: Some(owner_o()), to: Some(buyer_b()), id: 1 },
            Transfer { from: Some(buyer_b()), to: None, id: 1 },
        ]
    );
}

#[test]
fn transfer_to_self_moves_token_to_the_end() {
    let mut l = Erc721::new();
    assert_eq!(l.mint(owner_o(), 1, meta("m")), Ok(()));
    assert_eq!(l.mint(owner_o(), 2, meta("m")), Ok(()));
    assert_eq!(l.transfer(owner_o(), owner_o(), 1), Ok(()));
    assert_eq!(l.tokens_of_owner(owner_o()), vec![2, 1]);
    assert_eq!(l.balance_of(owner_o()), 2);
}

#[test]
fn account_identity() {
    assert!(null().is_null());
    assert!(!owner_o().is_null());
    let mut bytes = [0u8; 32];
    bytes[31] = 1;
    assert!(!AccountId::from_bytes(bytes).is_null());
    assert_eq!(AccountId::from_bytes(bytes), AccountId::from_bytes(bytes));
    assert_ne!(AccountId::from_bytes(bytes), null());
    assert_eq!(meta("x").duplicate(), meta("x"));
}
