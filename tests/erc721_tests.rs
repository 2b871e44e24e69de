use erc721::{AccountId, Erc721, Error, ForSale, NftData};

fn alice() -> AccountId {
    AccountId::from_bytes([1u8; 32])
}

fn bob() -> AccountId {
    AccountId::from_bytes([2u8; 32])
}

fn eve() -> AccountId {
    AccountId::from_bytes([5u8; 32])
}

fn no_data() -> NftData {
    NftData { poebat: None }
}

fn text(s: &str) -> NftData {
    NftData { poebat: Some(s.to_string()) }
}

#[test]
fn mint_works() {
    let mut erc721 = Erc721::new();
    assert_eq!(erc721.owner_of(1), None);
    assert_eq!(erc721.balance_of(alice()), 0);
    assert_eq!(erc721.mint(alice(), 1, no_data()), Ok(()));
    assert_eq!(erc721.balance_of(alice()), 1);
}

#[test]
fn publish_for_sale_works() {
    let mut erc721 = Erc721::new();
    assert_eq!(erc721.mint(alice(), 1, no_data()), Ok(()));
    assert_eq!(erc721.mint(alice(), 2, no_data()), Ok(()));
    assert_eq!(erc721.mint(alice(), 3, no_data()), Ok(()));

    assert_eq!(erc721.publish_for_sale(alice(), 1, 10), Ok(()));
    assert_eq!(erc721.get_tokens_for_sale(), vec![ForSale { id: 1, price: 10 }]);

    assert_eq!(erc721.publish_for_sale(alice(), 2, 100), Ok(()));
    assert_eq!(
        erc721.get_tokens_for_sale(),
        vec![ForSale { id: 1, price: 10 }, ForSale { id: 2, price: 100 }]
    );

    assert_eq!(erc721.remove_from_sale(alice(), 1), Ok(()));
    assert_eq!(erc721.get_tokens_for_sale(), vec![ForSale { id: 2, price: 100 }]);
}

#[test]
fn buy_nft_works() {
    let mut erc721 = Erc721::new();
    assert_eq!(erc721.mint(alice(), 1, no_data()), Ok(()));

    assert_eq!(erc721.publish_for_sale(alice(), 1, 10), Ok(()));
    assert_eq!(erc721.get_tokens_for_sale(), vec![ForSale { id: 1, price: 10 }]);

    assert_eq!(erc721.owner_of(1), Some(alice()));
    assert_eq!(erc721.purchase_quote(bob(), 1, 10), Ok((alice(), 10)));
    assert_eq!(erc721.buy_nft(bob(), 1, 10, true), Ok(()));

    assert_eq!(erc721.get_tokens_for_sale(), vec![]);
    assert_eq!(erc721.owner_of(1), Some(bob()));
}

#[test]
fn get_all_tokens_works() {
    let mut erc721 = Erc721::new();
    assert_eq!(erc721.get_all_tokens(), vec![]);
    assert_eq!(erc721.mint(alice(), 1, text("1")), Ok(()));
    assert_eq!(erc721.mint(alice(), 2, text("2")), Ok(()));
    assert_eq!(erc721.mint(bob(), 3, text("3")), Ok(()));

    assert_eq!(
        erc721.get_all_tokens(),
        vec![(1, text("1")), (2, text("2")), (3, text("3"))]
    );
    assert_eq!(erc721.burn(alice(), 2), Ok(()));
    assert_eq!(erc721.get_all_tokens(), vec![(1, text("1")), (3, text("3"))]);
}

#[test]
fn tokens_of_owner_works() {
    let mut erc721 = Erc721::new();
    assert_eq!(erc721.owner_of(1), None);
    assert_eq!(erc721.tokens_of_owner(alice()).len(), 0);
    assert_eq!(erc721.mint(alice(), 1, no_data()), Ok(()));
    assert_eq!(erc721.mint(alice(), 2, no_data()), Ok(()));
    assert_eq!(erc721.mint(alice(), 3, no_data()), Ok(()));
    assert_eq!(erc721.tokens_of_owner(alice()), vec![1, 2, 3]);
}

#[test]
fn mint_existing_should_fail() {
    let mut erc721 = Erc721::new();
    assert_eq!(erc721.mint(alice(), 1, no_data()), Ok(()));
    assert_eq!(1, erc721.recorded_events().len());
    assert_eq!(erc721.balance_of(alice()), 1);
    assert_eq!(erc721.owner_of(1), Some(alice()));
    assert_eq!(erc721.mint(alice(), 1, no_data()), Err(Error::TokenExists));
}

#[test]
fn transfer_works() {
    let mut erc721 = Erc721::new();
    assert_eq!(erc721.mint(alice(), 1, no_data()), Ok(()));
    assert_eq!(erc721.balance_of(alice()), 1);
    assert_eq!(erc721.owner_of(1), Some(alice()));
    assert_eq!(erc721.balance_of(bob()), 0);
    assert_eq!(1, erc721.recorded_events().len());
    assert_eq!(erc721.transfer(alice(), bob(), 1), Ok(()));
    assert_eq!(2, erc721.recorded_events().len());
    assert_eq!(erc721.balance_of(bob()), 1);
}

#[test]
fn invalid_transfer_should_fail() {
    let mut erc721 = Erc721::new();
    assert_eq!(erc721.transfer(alice(), bob(), 2), Err(Error::TokenNotFound));
    assert_eq!(erc721.owner_of(2), None);
    assert_eq!(erc721.mint(alice(), 2, no_data()), Ok(()));
    assert_eq!(erc721.balance_of(alice()), 1);
    assert_eq!(erc721.owner_of(2), Some(alice()));
    assert_eq!(erc721.transfer(bob(), eve(), 2), Err(Error::NotApproved));
}

#[test]
fn token_metadate() {
    let mut erc721 = Erc721::new();
    assert_eq!(erc721.mint(alice(), 2, text("lol")), Ok(()));
    assert_eq!(erc721.get_nft_info(2), Ok(text("lol")));
    assert_eq!(erc721.get_nft_info(3), Err(Error::TokenNotFound));
}

#[test]
fn burn_works() {
    let mut erc721 = Erc721::new();
    assert_eq!(erc721.mint(alice(), 1, no_data()), Ok(()));
    assert_eq!(erc721.balance_of(alice()), 1);
    assert_eq!(erc721.owner_of(1), Some(alice()));
    assert_eq!(erc721.burn(alice(), 1), Ok(()));
    assert_eq!(erc721.balance_of(alice()), 0);
    assert_eq!(erc721.owner_of(1), None);
}

#[test]
fn burn_fails_token_not_found() {
    let mut erc721 = Erc721::new();
    assert_eq!(erc721.burn(alice(), 1), Err(Error::TokenNotFound));
}

#[test]
fn burn_fails_not_owner() {
    let mut erc721 = Erc721::new();
    assert_eq!(erc721.mint(alice(), 1, no_data()), Ok(()));
    assert_eq!(erc721.burn(eve(), 1), Err(Error::NotOwner));
}
