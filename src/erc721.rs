use vstd::prelude::*;

use crate::model::{
    data_of, entries_unique, has_entry, has_holding, has_listing, holder, holdings_unique,
    ids_of, lemma_data_of, lemma_holder, lemma_ids_of_contains, lemma_ids_of_remove,
    lemma_ids_of_unique, lemma_price_of, listings_unique, lemma_holdings_push, lemma_holdings_remove,
    lemma_entries_push, lemma_entries_remove, lemma_filter_unique, lemma_listings_push, lemma_listings_remove, price_of, Holding, TokenEntry,
};
use crate::types::{is_null_account, AccountId, Balance, Error, ForSale, NftData, TokenId, Transfer};

verus! {

/// The ledger of non-fungible tokens together with its marketplace.
///
/// Every operation takes the calling account explicitly. An operation that
/// fails leaves the ledger exactly as it was.
pub struct Erc721 {
    /// Every existing token with its metadata, in the order of minting.
    tokens: Vec<TokenEntry>,
    /// Who holds which token, in the order in which the holders acquired them.
    holdings: Vec<Holding>,
    /// The tokens offered for sale with their prices, in the order of listing.
    listing: Vec<ForSale>,
    /// The ownership notifications emitted so far, oldest first.
    events: Vec<Transfer>,
}

/// What moving token `id` from `from` to `to` answers: the token must exist,
/// `from` must own it, and `to` must not be the null account.
pub open spec fn transfer_result(pre: Erc721, from: AccountId, to: AccountId, id: TokenId) -> Result<
    (),
    Error,
> {
    if pre.owner_spec(id) is None {
        Err(Error::TokenNotFound)
    } else if pre.owner_spec(id) != Some(from) {
        Err(Error::NotApproved)
    } else if is_null_account(to) {
        Err(Error::NotAllowed)
    } else {
        Ok(())
    }
}

/// `post` is `pre` with token `id` moved from `from` to `to`: it leaves the
/// place where it stood among the tokens of `from` and goes to the end of
/// those of `to`. Nothing else of the ownership tables changes.
pub open spec fn moved(pre: Erc721, post: Erc721, from: AccountId, to: AccountId, id: TokenId) -> bool {
    &&& post.all_ids() == pre.all_ids()
    &&& post.owner_spec(id) == Some(to)
    &&& forall|x: TokenId| x != id ==> #[trigger] post.owner_spec(x) == pre.owner_spec(x)
    &&& forall|x: TokenId| #[trigger] post.data_spec(x) == pre.data_spec(x)
    &&& exists|k: int|
        0 <= k < pre.owned_spec(from).len() && pre.owned_spec(from)[k] == id && forall|a: AccountId|
            #[trigger] post.owned_spec(a) == {
                let base = if a == from {
                    pre.owned_spec(from).remove(k)
                } else {
                    pre.owned_spec(a)
                };
                if a == to {
                    base.push(id)
                } else {
                    base
                }
            }
}

/// What a purchase of token `id` by `caller`, who sent `value`, answers
/// before any payment is made: the account to pay and the price to pay it.
/// The token must exist, be owned by someone other than `caller`, and be
/// offered at a price no greater than `value`; `caller` must be able to own it.
pub open spec fn purchase_result(pre: Erc721, caller: AccountId, id: TokenId, value: Balance) -> Result<
    (AccountId, Balance),
    Error,
> {
    if pre.owner_spec(id) is None {
        Err(Error::TokenNotFound)
    } else if pre.owner_spec(id) == Some(caller) {
        Err(Error::NotApproved)
    } else if pre.price_spec(id) is None {
        Err(Error::NotForSale)
    } else if pre.price_spec(id)->0 > value {
        Err(Error::NotEnoughSent)
    } else if is_null_account(caller) {
        Err(Error::NotAllowed)
    } else {
        Ok((pre.owner_spec(id)->0, pre.price_spec(id)->0))
    }
}

/// What completing a purchase answers, given whether the payment was made.
pub open spec fn buy_result(
    pre: Erc721,
    caller: AccountId,
    id: TokenId,
    value: Balance,
    payment_made: bool,
) -> Result<(), Error> {
    match purchase_result(pre, caller, id, value) {
        Err(e) => Err(e),
        Ok(_) => if payment_made {
            Ok(())
        } else {
            Err(Error::CannotMakeTransfer)
        },
    }
}

/// The ownership tables and the notifications are the same in `pre` and
/// `post`.
pub open spec fn ownership_unchanged(pre: Erc721, post: Erc721) -> bool {
    &&& post.all_ids() == pre.all_ids()
    &&& forall|x: TokenId| #[trigger] post.owner_spec(x) == pre.owner_spec(x)
    &&& forall|x: TokenId| #[trigger] post.data_spec(x) == pre.data_spec(x)
    &&& forall|a: AccountId| #[trigger] post.owned_spec(a) == pre.owned_spec(a)
    &&& post.events_spec() == pre.events_spec()
}

/// `post` is `pre` with token `id` minted to `caller` with metadata `data`:
/// the id goes to the end of the token list and of the caller's tokens.
pub open spec fn minted(pre: Erc721, post: Erc721, caller: AccountId, id: TokenId, data: NftData) -> bool {
    &&& post.all_ids() == pre.all_ids().push(id)
    &&& post.owner_spec(id) == Some(caller)
    &&& post.data_spec(id) == Some(data)
    &&& forall|x: TokenId|
        x != id ==> #[trigger] post.owner_spec(x) == pre.owner_spec(x) && post.data_spec(x)
            == pre.data_spec(x)
    &&& post.owned_spec(caller) == pre.owned_spec(caller).push(id)
    &&& forall|a: AccountId| a != caller ==> #[trigger] post.owned_spec(a) == pre.owned_spec(a)
    &&& post.sale_spec() == pre.sale_spec()
    &&& post.events_spec() == pre.events_spec().push((Transfer { from: None, to: Some(caller), id }))
}

/// `post` is `pre` with token `id` of `caller` burned: it leaves the token
/// list and the caller's tokens at the place where it stood, and has neither
/// owner nor metadata any more. Listings are left as they were.
pub open spec fn burned(pre: Erc721, post: Erc721, caller: AccountId, id: TokenId) -> bool {
    &&& post.owner_spec(id) is None
    &&& post.data_spec(id) is None
    &&& forall|x: TokenId|
        x != id ==> #[trigger] post.owner_spec(x) == pre.owner_spec(x) && post.data_spec(x)
            == pre.data_spec(x)
    &&& exists|j: int|
        0 <= j < pre.all_ids().len() && pre.all_ids()[j] == id && post.all_ids()
            == pre.all_ids().remove(j)
    &&& exists|k: int|
        0 <= k < pre.owned_spec(caller).len() && pre.owned_spec(caller)[k] == id
            && post.owned_spec(caller) == pre.owned_spec(caller).remove(k)
    &&& forall|a: AccountId| a != caller ==> #[trigger] post.owned_spec(a) == pre.owned_spec(a)
    &&& post.sale_spec() == pre.sale_spec()
    &&& post.events_spec() == pre.events_spec().push((Transfer { from: Some(caller), to: None, id }))
}

/// What burning token `id` on behalf of `caller` answers.
pub open spec fn burn_result(pre: Erc721, caller: AccountId, id: TokenId) -> Result<(), Error> {
    if pre.owner_spec(id) is None {
        Err(Error::TokenNotFound)
    } else if pre.owner_spec(id) != Some(caller) {
        Err(Error::NotOwner)
    } else {
        Ok(())
    }
}

impl Erc721 {
    /// The ids of all existing tokens, in the order of minting.
    pub closed spec fn all_ids(&self) -> Seq<TokenId> {
        self.tokens@.map_values(|e: TokenEntry| e.id)
    }

    /// The owner of token `id`, if it exists.
    pub closed spec fn owner_spec(&self, id: TokenId) -> Option<AccountId> {
        holder(self.holdings@, id)
    }

    /// The tokens that `a` owns, in the order in which it acquired them.
    pub closed spec fn owned_spec(&self, a: AccountId) -> Seq<TokenId> {
        ids_of(self.holdings@, a)
    }

    /// The metadata of token `id`, if it exists.
    pub closed spec fn data_spec(&self, id: TokenId) -> Option<NftData> {
        data_of(self.tokens@, id)
    }

    /// The listings, in the order in which they were published.
    pub closed spec fn sale_spec(&self) -> Seq<ForSale> {
        self.listing@
    }

    /// The price at which token `id` is offered, if it is.
    pub open spec fn price_spec(&self, id: TokenId) -> Option<Balance> {
        price_of(self.sale_spec(), id)
    }

    /// The notifications emitted so far, oldest first.
    pub closed spec fn events_spec(&self) -> Seq<Transfer> {
        self.events@
    }

    /// The tables agree with each other: ids are unique in each, a token exists
    /// exactly when someone holds it, the null account holds nothing, and the
    /// number of tokens fits in a `u32`.
    pub closed spec fn well_formed(&self) -> bool {
        &&& entries_unique(self.tokens@)
        &&& holdings_unique(self.holdings@)
        &&& listings_unique(self.listing@)
        &&& forall|id: TokenId| has_entry(self.tokens@, id) <==> has_holding(self.holdings@, id)
        &&& forall|i: int|
            0 <= i < self.holdings@.len() ==> !is_null_account(#[trigger] self.holdings@[i].owner)
        &&& self.tokens@.len() == self.holdings@.len()
        &&& self.tokens@.len() <= u32::MAX
    }

    /// What the tables say, read from a well-formed ledger.
    proof fn lemma_lookups(&self, id: TokenId)
        requires
            self.well_formed(),
        ensures
            self.owner_spec(id) is Some <==> self.data_spec(id) is Some,
            self.owner_spec(id) is Some <==> self.all_ids().contains(id),
            self.owner_spec(id) is Some ==> !is_null_account(self.owner_spec(id)->0),
            self.price_spec(id) is None <==> !has_listing(self.listing@, id),
    {
        lemma_holder(self.holdings@, id);
        lemma_data_of(self.tokens@, id);
        lemma_price_of(self.listing@, id);
        if self.owner_spec(id) is Some {
            let i = choose|i: int| 0 <= i < self.holdings@.len() && self.holdings@[i].id == id;
            assert(!is_null_account(self.holdings@[i].owner));
            let j = choose|j: int| 0 <= j < self.tokens@.len() && self.tokens@[j].id == id;
            assert(self.all_ids()[j] == id);
        }
        if self.all_ids().contains(id) {
            let j = choose|j: int| 0 <= j < self.all_ids().len() && self.all_ids()[j] == id;
            assert(self.tokens@[j].id == id);
        }
    }

    /// An empty ledger.
    pub fn new() -> (r: Erc721)
        ensures
            r.well_formed(),
            r.all_ids() == Seq::<TokenId>::empty(),
            forall|id: TokenId| r.owner_spec(id) is None,
            forall|a: AccountId| r.owned_spec(a) == Seq::<TokenId>::empty(),
            r.sale_spec() == Seq::<ForSale>::empty(),
            r.events_spec() == Seq::<Transfer>::empty(),
    {
        let r = Erc721 { tokens: Vec::new(), holdings: Vec::new(), listing: Vec::new(), events: Vec::new() };
        assert(r.all_ids() =~= Seq::<TokenId>::empty());
        r
    }

    /// The position of token `id` among the holdings.
    fn find_holding(&self, id: TokenId) -> (r: Option<usize>)
        ensures
            match r {
                Some(i) => i < self.holdings@.len() && self.holdings@[i as int].id == id,
                None => !has_holding(self.holdings@, id),
            },
    {
        let mut i: usize = 0;
        while i < self.holdings.len()
            invariant
                0 <= i <= self.holdings@.len(),
                forall|j: int| 0 <= j < i ==> self.holdings@[j].id != id,
            decreases self.holdings@.len() - i,
        {
            if self.holdings[i].id == id {
                return Some(i);
            }
            i = i + 1;
        }
        None
    }

    /// The position of token `id` among the existing tokens.
    fn find_entry(&self, id: TokenId) -> (r: Option<usize>)
        ensures
            match r {
                Some(i) => i < self.tokens@.len() && self.tokens@[i as int].id == id,
                None => !has_entry(self.tokens@, id),
            },
    {
        let mut i: usize = 0;
        while i < self.tokens.len()
            invariant
                0 <= i <= self.tokens@.len(),
                forall|j: int| 0 <= j < i ==> self.tokens@[j].id != id,
            decreases self.tokens@.len() - i,
        {
            if self.tokens[i].id == id {
                return Some(i);
            }
            i = i + 1;
        }
        None
    }

    /// The position of token `id` among the listings.
    fn find_listing(&self, id: TokenId) -> (r: Option<usize>)
        ensures
            match r {
                Some(i) => i < self.listing@.len() && self.listing@[i as int].id == id,
                None => !has_listing(self.listing@, id),
            },
    {
        let mut i: usize = 0;
        while i < self.listing.len()
            invariant
                0 <= i <= self.listing@.len(),
                forall|j: int| 0 <= j < i ==> self.listing@[j].id != id,
            decreases self.listing@.len() - i,
        {
            if self.listing[i].id == id {
                return Some(i);
            }
            i = i + 1;
        }
        None
    }

    /// The owner of token `id`, or `None` where it does not exist.
    pub fn owner_of(&self, id: TokenId) -> (r: Option<AccountId>)
        requires
            self.well_formed(),
        ensures
            r == self.owner_spec(id),
    {
        proof {
            lemma_holder(self.holdings@, id);
        }
        match self.find_holding(id) {
            Some(i) => Some(self.holdings[i].owner),
            None => None,
        }
    }

    /// Whether token `id` exists.
    fn token_exists(&self, id: TokenId) -> (r: bool)
        requires
            self.well_formed(),
        ensures
            r == (self.owner_spec(id) is Some),
    {
        proof {
            lemma_holder(self.holdings@, id);
        }
        self.find_holding(id).is_some()
    }

    /// Whether `from` names an account other than the null one that owns
    /// token `id`. Where `from` is `None` and the token does not exist, the
    /// two agree and the answer is `true`.
    fn is_owner_of(&self, from: Option<AccountId>, id: TokenId) -> (r: bool)
        requires
            self.well_formed(),
        ensures
            r == (!(from is Some && is_null_account(from->0)) && from == self.owner_spec(id)),
    {
        let owner = self.owner_of(id);
        let not_null = match from {
            Some(a) => !a.is_null(),
            None => true,
        };
        let same = match (from, owner) {
            (Some(a), Some(b)) => a == b,
            (None, None) => true,
            _ => false,
        };
        not_null && same
    }

    /// The number of tokens that `of` owns.
    fn balance_of_or_zero(&self, of: &AccountId) -> (r: u32)
        requires
            self.well_formed(),
        ensures
            r == self.owned_spec(*of).len(),
    {
        let mut count: u32 = 0;
        let mut i: usize = 0;
        while i < self.holdings.len()
            invariant
                0 <= i <= self.holdings@.len(),
                self.holdings@.len() <= u32::MAX,
                count == ids_of(self.holdings@.take(i as int), *of).len(),
                count <= i,
            decreases self.holdings@.len() - i,
        {
            proof {
                assert(self.holdings@.take(i + 1).drop_last() =~= self.holdings@.take(i as int));
            }
            if self.holdings[i].owner == *of {
                count = count + 1;
            }
            i = i + 1;
        }
        proof {
            assert(self.holdings@.take(i as int) =~= self.holdings@);
        }
        count
    }

    /// The number of tokens that `owner` owns.
    pub fn balance_of(&self, owner: AccountId) -> (r: u32)
        requires
            self.well_formed(),
        ensures
            r == self.owned_spec(owner).len(),
    {
        self.balance_of_or_zero(&owner)
    }

    /// The tokens that `owner` owns, in the order in which it acquired them.
    pub fn tokens_of_owner(&self, owner: AccountId) -> (r: Vec<TokenId>)
        requires
            self.well_formed(),
        ensures
            r@ == self.owned_spec(owner),
    {
        let mut r: Vec<TokenId> = Vec::new();
        let mut i: usize = 0;
        while i < self.holdings.len()
            invariant
                0 <= i <= self.holdings@.len(),
                r@ == ids_of(self.holdings@.take(i as int), owner),
            decreases self.holdings@.len() - i,
        {
            proof {
                assert(self.holdings@.take(i + 1).drop_last() =~= self.holdings@.take(i as int));
            }
            if self.holdings[i].owner == owner {
                r.push(self.holdings[i].id);
            }
            i = i + 1;
        }
        proof {
            assert(self.holdings@.take(i as int) =~= self.holdings@);
        }
        r
    }

    /// Every existing token with its metadata, in the order of minting.
    pub fn get_all_tokens(&self) -> (r: Vec<(TokenId, NftData)>)
        requires
            self.well_formed(),
        ensures
            r@.len() == self.all_ids().len(),
            forall|i: int|
                0 <= i < r@.len() ==> r@[i].0 == self.all_ids()[i] && Some(r@[i].1)
                    == self.data_spec(r@[i].0),
    {
        let mut r: Vec<(TokenId, NftData)> = Vec::new();
        let mut i: usize = 0;
        while i < self.tokens.len()
            invariant
                0 <= i <= self.tokens@.len(),
                r@.len() == i,
                entries_unique(self.tokens@),
                forall|j: int|
                    0 <= j < i ==> r@[j].0 == self.tokens@[j].id && r@[j].1 == self.tokens@[j].data,
            decreases self.tokens@.len() - i,
        {
            r.push((self.tokens[i].id, self.tokens[i].data.duplicate()));
            i = i + 1;
        }
        proof {
            assert forall|j: int| 0 <= j < r@.len() implies r@[j].0 == self.all_ids()[j] && Some(
                r@[j].1,
            ) == self.data_spec(r@[j].0) by {
                lemma_data_of(self.tokens@, r@[j].0);
            }
        }
        r
    }

    /// The metadata of token `id`.
    pub fn get_nft_info(&self, id: TokenId) -> (r: Result<NftData, Error>)
        requires
            self.well_formed(),
        ensures
            match self.data_spec(id) {
                Some(d) => r == Ok::<NftData, Error>(d),
                None => r == Err::<NftData, Error>(Error::TokenNotFound),
            },
            r is Ok <==> self.owner_spec(id) is Some,
    {
        proof {
            lemma_data_of(self.tokens@, id);
            self.lemma_lookups(id);
        }
        match self.find_entry(id) {
            Some(i) => Ok(self.tokens[i].data.duplicate()),
            None => Err(Error::TokenNotFound),
        }
    }

    /// The listings, in the order in which they were published.
    pub fn get_tokens_for_sale(&self) -> (r: Vec<ForSale>)
        ensures
            r@ == self.sale_spec(),
    {
        let mut r: Vec<ForSale> = Vec::new();
        let mut i: usize = 0;
        while i < self.listing.len()
            invariant
                0 <= i <= self.listing@.len(),
                r@ == self.listing@.take(i as int),
            decreases self.listing@.len() - i,
        {
            r.push(self.listing[i]);
            i = i + 1;
            proof {
                assert(r@ =~= self.listing@.take(i as int));
            }
        }
        proof {
            assert(self.listing@.take(i as int) =~= self.listing@);
        }
        r
    }

    /// Records that `to` holds token `id`, which nobody may hold yet.
    fn add_token_to(&mut self, to: &AccountId, id: TokenId) -> (r: Result<(), Error>)
        requires
            holdings_unique(old(self).holdings@),
        ensures
            has_holding(old(self).holdings@, id) ==> r == Err::<(), Error>(Error::TokenExists),
            !has_holding(old(self).holdings@, id) && is_null_account(*to) ==> r == Err::<(), Error>(
                Error::NotAllowed,
            ),
            !has_holding(old(self).holdings@, id) && !is_null_account(*to) ==> r is Ok,
            r is Err ==> *final(self) == *old(self),
            r is Ok ==> final(self).holdings@ == old(self).holdings@.push(
                (Holding { owner: *to, id }),
            ),
            final(self).tokens == old(self).tokens,
            final(self).listing == old(self).listing,
            final(self).events == old(self).events,
    {
        if self.find_holding(id).is_some() {
            return Err(Error::TokenExists);
        }
        if to.is_null() {
            return Err(Error::NotAllowed);
        }
        self.holdings.push(Holding { owner: *to, id });
        Ok(())
    }

    /// Takes token `id` out of what `from` holds.
    fn remove_token_from(&mut self, from: &AccountId, id: TokenId) -> (r: Result<(), Error>)
        requires
            holdings_unique(old(self).holdings@),
        ensures
            holder(old(self).holdings@, id) is None ==> r == Err::<(), Error>(Error::TokenNotFound),
            holder(old(self).holdings@, id) is Some && holder(old(self).holdings@, id) != Some(*from)
                ==> r == Err::<(), Error>(Error::CannotFetchValue),
            holder(old(self).holdings@, id) == Some(*from) ==> r is Ok,
            r is Err ==> *final(self) == *old(self),
            r is Ok ==> exists|i: int|
                0 <= i < old(self).holdings@.len() && old(self).holdings@[i].id == id
                    && final(self).holdings@ == old(self).holdings@.remove(i),
            final(self).tokens == old(self).tokens,
            final(self).listing == old(self).listing,
            final(self).events == old(self).events,
    {
        proof {
            lemma_holder(self.holdings@, id);
        }
        match self.find_holding(id) {
            None => Err(Error::TokenNotFound),
            Some(i) => {
                if self.holdings[i].owner != *from {
                    return Err(Error::CannotFetchValue);
                }
                self.holdings.remove(i);
                Ok(())
            },
        }
    }

    /// Creates token `id`, owned by `caller`, with metadata `data`.
    pub fn mint(&mut self, caller: AccountId, id: TokenId, data: NftData) -> (r: Result<(), Error>)
        requires
            old(self).well_formed(),
            old(self).all_ids().len() < u32::MAX,
        ensures
            final(self).well_formed(),
            r == if old(self).owner_spec(id) is Some {
                Err::<(), Error>(Error::TokenExists)
            } else if is_null_account(caller) {
                Err::<(), Error>(Error::NotAllowed)
            } else {
                Ok::<(), Error>(())
            },
            r is Err ==> *final(self) == *old(self),
            r is Ok ==> minted(*old(self), *final(self), caller, id, data),
    {
        proof {
            self.lemma_lookups(id);
            lemma_holder(self.holdings@, id);
        }
        match self.add_token_to(&caller, id) {
            Err(e) => {
                return Err(e);
            },
            Ok(()) => {},
        }
        let ghost d = data;
        self.tokens.push(TokenEntry { id, data });
        self.events.push(Transfer { from: None, to: Some(caller), id });
        proof {
            let h = Holding { owner: caller, id };
            let e = TokenEntry { id, data: d };
            lemma_holdings_push(old(self).holdings@, h);
            lemma_entries_push(old(self).tokens@, e);
            assert(self.all_ids() =~= old(self).all_ids().push(id));
            assert(old(self).all_ids().len() == old(self).tokens@.len());
            assert forall|x: TokenId| has_entry(self.tokens@, x) <==> has_holding(
                self.holdings@,
                x,
            ) by {
                assert(has_entry(old(self).tokens@, x) <==> has_holding(old(self).holdings@, x));
            }
            assert forall|k: int| 0 <= k < self.holdings@.len() implies !is_null_account(
                #[trigger] self.holdings@[k].owner,
            ) by {
                if k < old(self).holdings@.len() {
                    assert(self.holdings@[k] == old(self).holdings@[k]);
                }
            }
        }
        Ok(())
    }

    /// Moves token `id` from `from` to `to`, after checking that it exists,
    /// that `from` owns it and that `to` may own it.
    fn transfer_token_from(&mut self, from: &AccountId, to: &AccountId, id: TokenId) -> (r: Result<
        (),
        Error,
    >)
        requires
            old(self).well_formed(),
        ensures
            final(self).well_formed(),
            r == transfer_result(*old(self), *from, *to, id),
            r is Err ==> *final(self) == *old(self),
            r is Ok ==> moved(*old(self), *final(self), *from, *to, id),
            final(self).sale_spec() == old(self).sale_spec(),
            r is Ok ==> final(self).events_spec() == old(self).events_spec().push(
                (Transfer { from: Some(*from), to: Some(*to), id }),
            ),
    {
        proof {
            self.lemma_lookups(id);
            lemma_holder(self.holdings@, id);
        }
        if !self.token_exists(id) {
            return Err(Error::TokenNotFound);
        }
        if !self.is_owner_of(Some(*from), id) {
            return Err(Error::NotApproved);
        }
        if to.is_null() {
            return Err(Error::NotAllowed);
        }
        let ghost h0 = self.holdings@;
        match self.remove_token_from(from, id) {
            Err(e) => {
                return Err(e);
            },
            Ok(()) => {},
        }
        let ghost i = choose|i: int| 0 <= i < h0.len() && h0[i].id == id && self.holdings@ == h0.remove(i);
        proof {
            lemma_holdings_remove(h0, i);
        }
        let ghost h1 = self.holdings@;
        match self.add_token_to(to, id) {
            Err(e) => {
                return Err(e);
            },
            Ok(()) => {},
        }
        self.events.push(Transfer { from: Some(*from), to: Some(*to), id });
        proof {
            let h = Holding { owner: *to, id };
            lemma_holdings_push(h1, h);
            assert(h0[i].owner == *from);
            assert forall|x: TokenId| has_entry(self.tokens@, x) <==> has_holding(
                self.holdings@,
                x,
            ) by {
                assert(has_entry(old(self).tokens@, x) <==> has_holding(h0, x));
            }
            assert forall|k: int| 0 <= k < self.holdings@.len() implies !is_null_account(
                #[trigger] self.holdings@[k].owner,
            ) by {
                if k < h1.len() {
                    assert(self.holdings@[k] == h1[k]);
                    if k < i {
                        assert(h1[k] == h0[k]);
                    } else {
                        assert(h1[k] == h0[k + 1]);
                    }
                }
            }
            let k = ids_of(h0.take(i), *from).len() as int;
            assert forall|a: AccountId| #[trigger] self.owned_spec(a) == {
                let base = if a == *from {
                    old(self).owned_spec(*from).remove(k)
                } else {
                    old(self).owned_spec(a)
                };
                if a == *to {
                    base.push(id)
                } else {
                    base
                }
            } by {
                lemma_ids_of_remove(h0, i, a);
                lemma_ids_of_remove(h0, i, *from);
            }
            lemma_ids_of_remove(h0, i, *from);
            assert(old(self).owned_spec(*from)[k] == id);
        }
        Ok(())
    }

    /// Moves token `id` from `caller` to `destination`.
    pub fn transfer(&mut self, caller: AccountId, destination: AccountId, id: TokenId) -> (r: Result<
        (),
        Error,
    >)
        requires
            old(self).well_formed(),
        ensures
            final(self).well_formed(),
            r == transfer_result(*old(self), caller, destination, id),
            r is Err ==> *final(self) == *old(self),
            r is Ok ==> moved(*old(self), *final(self), caller, destination, id),
            final(self).sale_spec() == old(self).sale_spec(),
            r is Ok ==> final(self).events_spec() == old(self).events_spec().push(
                (Transfer { from: Some(caller), to: Some(destination), id }),
            ),
    {
        self.transfer_token_from(&caller, &destination, id)
    }

    /// Moves token `id` from `from` to `to`. Only ownership by `from` is
    /// checked: there are no delegated approvals.
    pub fn transfer_from(&mut self, from: AccountId, to: AccountId, id: TokenId) -> (r: Result<
        (),
        Error,
    >)
        requires
            old(self).well_formed(),
        ensures
            final(self).well_formed(),
            r == transfer_result(*old(self), from, to, id),
            r is Err ==> *final(self) == *old(self),
            r is Ok ==> moved(*old(self), *final(self), from, to, id),
            final(self).sale_spec() == old(self).sale_spec(),
            r is Ok ==> final(self).events_spec() == old(self).events_spec().push(
                (Transfer { from: Some(from), to: Some(to), id }),
            ),
    {
        self.transfer_token_from(&from, &to, id)
    }

    /// Destroys token `id`, which `caller` must own. Its listing, if any, is
    /// left to the owner's care, as every listing is.
    pub fn burn(&mut self, caller: AccountId, id: TokenId) -> (r: Result<(), Error>)
        requires
            old(self).well_formed(),
        ensures
            final(self).well_formed(),
            r == burn_result(*old(self), caller, id),
            r is Err ==> *final(self) == *old(self),
            r is Ok ==> burned(*old(self), *final(self), caller, id),
    {
        proof {
            self.lemma_lookups(id);
            lemma_holder(self.holdings@, id);
            lemma_data_of(self.tokens@, id);
        }
        let i = match self.find_holding(id) {
            None => {
                return Err(Error::TokenNotFound);
            },
            Some(i) => i,
        };
        if self.holdings[i].owner != caller {
            return Err(Error::NotOwner);
        }
        let j = match self.find_entry(id) {
            None => {
                return Err(Error::CannotFetchValue);
            },
            Some(j) => j,
        };
        let ghost h0 = self.holdings@;
        let ghost t0 = self.tokens@;
        proof {
            lemma_holdings_remove(h0, i as int);
            lemma_entries_remove(t0, j as int);
            lemma_ids_of_remove(h0, i as int, caller);
        }
        self.holdings.remove(i);
        self.tokens.remove(j);
        self.events.push(Transfer { from: Some(caller), to: None, id });
        proof {
            assert(self.all_ids() =~= old(self).all_ids().remove(j as int));
            assert(old(self).all_ids()[j as int] == id);
            assert forall|x: TokenId| has_entry(self.tokens@, x) <==> has_holding(
                self.holdings@,
                x,
            ) by {
                assert(has_entry(t0, x) <==> has_holding(h0, x));
            }
            assert forall|k: int| 0 <= k < self.holdings@.len() implies !is_null_account(
                #[trigger] self.holdings@[k].owner,
            ) by {
                if k < i {
                    assert(self.holdings@[k] == h0[k]);
                } else {
                    assert(self.holdings@[k] == h0[k + 1]);
                }
            }
            assert forall|a: AccountId| a != caller implies #[trigger] self.owned_spec(a)
                == old(self).owned_spec(a) by {
                lemma_ids_of_remove(h0, i as int, a);
            }
            let k = ids_of(h0.take(i as int), caller).len() as int;
            assert(0 <= k < old(self).owned_spec(caller).len() && old(self).owned_spec(caller)[k]
                == id && self.owned_spec(caller) == old(self).owned_spec(caller).remove(k));
            assert(forall|x: TokenId|
                x != id ==> #[trigger] self.owner_spec(x) == old(self).owner_spec(x)
                    && self.data_spec(x) == old(self).data_spec(x));
        }
        Ok(())
    }

    /// Offers token `id`, which `caller` must own, for sale at `price`.
    pub fn publish_for_sale(&mut self, caller: AccountId, id: TokenId, price: Balance) -> (r: Result<
        (),
        Error,
    >)
        requires
            old(self).well_formed(),
        ensures
            final(self).well_formed(),
            r == if old(self).owner_spec(id) is None {
                Err::<(), Error>(Error::TokenNotFound)
            } else if old(self).owner_spec(id) != Some(caller) {
                Err::<(), Error>(Error::NotApproved)
            } else if old(self).price_spec(id) is Some {
                Err::<(), Error>(Error::AlreadyForSale)
            } else {
                Ok::<(), Error>(())
            },
            r is Err ==> *final(self) == *old(self),
            r is Ok ==> final(self).sale_spec() == old(self).sale_spec().push(
                (ForSale { id, price }),
            ),
            r is Ok ==> final(self).price_spec(id) == Some(price),
            r is Ok ==> forall|x: TokenId|
                x != id ==> #[trigger] final(self).price_spec(x) == old(self).price_spec(x),
            ownership_unchanged(*old(self), *final(self)),
    {
        proof {
            self.lemma_lookups(id);
        }
        if !self.token_exists(id) {
            return Err(Error::TokenNotFound);
        }
        if !self.is_owner_of(Some(caller), id) {
            return Err(Error::NotApproved);
        }
        if self.find_listing(id).is_some() {
            return Err(Error::AlreadyForSale);
        }
        proof {
            lemma_listings_push(self.listing@, ForSale { id, price });
        }
        self.listing.push(ForSale { id, price });
        Ok(())
    }

    /// Withdraws the offer of token `id`, which `caller` must own.
    pub fn remove_from_sale(&mut self, caller: AccountId, id: TokenId) -> (r: Result<(), Error>)
        requires
            old(self).well_formed(),
        ensures
            final(self).well_formed(),
            r == if old(self).owner_spec(id) is None {
                Err::<(), Error>(Error::TokenNotFound)
            } else if old(self).owner_spec(id) != Some(caller) {
                Err::<(), Error>(Error::NotApproved)
            } else if old(self).price_spec(id) is None {
                Err::<(), Error>(Error::NotForSale)
            } else {
                Ok::<(), Error>(())
            },
            r is Err ==> *final(self) == *old(self),
            r is Ok ==> exists|k: int|
                0 <= k < old(self).sale_spec().len() && old(self).sale_spec()[k].id == id
                    && final(self).sale_spec() == old(self).sale_spec().remove(k),
            r is Ok ==> final(self).price_spec(id) is None,
            r is Ok ==> forall|x: TokenId|
                x != id ==> #[trigger] final(self).price_spec(x) == old(self).price_spec(x),
            ownership_unchanged(*old(self), *final(self)),
    {
        proof {
            self.lemma_lookups(id);
        }
        if !self.token_exists(id) {
            return Err(Error::TokenNotFound);
        }
        if !self.is_owner_of(Some(caller), id) {
            return Err(Error::NotApproved);
        }
        let k = match self.find_listing(id) {
            None => {
                return Err(Error::NotForSale);
            },
            Some(k) => k,
        };
        proof {
            lemma_listings_remove(self.listing@, k as int);
        }
        self.listing.remove(k);
        proof {
            assert(old(self).sale_spec()[k as int].id == id && self.sale_spec() == old(
                self,
            ).sale_spec().remove(k as int));
        }
        Ok(())
    }

    /// Checks a purchase of token `id` by `caller`, who sent `transferred_value`,
    /// and answers whom to pay and how much: exactly the listed price, to the
    /// current owner. Nothing changes.
    pub fn purchase_quote(&self, caller: AccountId, id: TokenId, transferred_value: Balance) -> (r:
        Result<(AccountId, Balance), Error>)
        requires
            self.well_formed(),
        ensures
            r == purchase_result(*self, caller, id, transferred_value),
    {
        proof {
            self.lemma_lookups(id);
            lemma_price_of(self.listing@, id);
        }
        let owner = match self.owner_of(id) {
            None => {
                return Err(Error::TokenNotFound);
            },
            Some(o) => o,
        };
        if self.is_owner_of(Some(caller), id) {
            return Err(Error::NotApproved);
        }
        let k = match self.find_listing(id) {
            None => {
                return Err(Error::NotForSale);
            },
            Some(k) => k,
        };
        let price = self.listing[k].price;
        if price > transferred_value {
            return Err(Error::NotEnoughSent);
        }
        if caller.is_null() {
            return Err(Error::NotAllowed);
        }
        Ok((owner, price))
    }

    /// Completes a purchase of token `id` by `caller`, who sent
    /// `transferred_value`. The checks are those of `purchase_quote`; where they
    /// pass, the quoted price has been offered to the owner, and
    /// `payment_made` tells whether that payment went through. Only then does
    /// the token move to `caller` and its listing go.
    pub fn buy_nft(
        &mut self,
        caller: AccountId,
        id: TokenId,
        transferred_value: Balance,
        payment_made: bool,
    ) -> (r: Result<(), Error>)
        requires
            old(self).well_formed(),
        ensures
            final(self).well_formed(),
            r == buy_result(*old(self), caller, id, transferred_value, payment_made),
            r is Err ==> *final(self) == *old(self),
            r is Ok ==> {
                let seller = old(self).owner_spec(id)->0;
                &&& moved(*old(self), *final(self), seller, caller, id)
                &&& exists|k: int|
                    0 <= k < old(self).sale_spec().len() && old(self).sale_spec()[k].id == id
                        && final(self).sale_spec() == old(self).sale_spec().remove(k)
                &&& final(self).price_spec(id) is None
                &&& forall|x: TokenId|
                    x != id ==> #[trigger] final(self).price_spec(x) == old(self).price_spec(x)
                &&& final(self).events_spec() == old(self).events_spec().push(
                    (Transfer { from: Some(seller), to: Some(caller), id }),
                )
            },
    {
        let (seller, _price) = match self.purchase_quote(caller, id, transferred_value) {
            Err(e) => {
                return Err(e);
            },
            Ok(q) => q,
        };
        if !payment_made {
            return Err(Error::CannotMakeTransfer);
        }
        proof {
            self.lemma_lookups(id);
            lemma_price_of(self.listing@, id);
        }
        let k = match self.find_listing(id) {
            None => {
                return Err(Error::CannotFetchValue);
            },
            Some(k) => k,
        };
        match self.transfer_token_from(&seller, &caller, id) {
            Err(e) => {
                return Err(e);
            },
            Ok(()) => {},
        }
        proof {
            lemma_listings_remove(self.listing@, k as int);
        }
        let ghost mid = *self;
        self.listing.remove(k);
        proof {
            assert(old(self).sale_spec()[k as int].id == id && self.sale_spec() == old(
                self,
            ).sale_spec().remove(k as int));
            assert(forall|x: TokenId| #[trigger] self.owner_spec(x) == mid.owner_spec(x));
            assert(forall|x: TokenId| #[trigger] self.data_spec(x) == mid.data_spec(x));
            assert(forall|a: AccountId| #[trigger] self.owned_spec(a) == mid.owned_spec(a));
            assert(moved(*old(self), mid, seller, caller, id));
            let kk = choose|kk: int|
                0 <= kk < old(self).owned_spec(seller).len() && old(self).owned_spec(seller)[kk]
                    == id && forall|a: AccountId|
                    #[trigger] mid.owned_spec(a) == {
                        let base = if a == seller {
                            old(self).owned_spec(seller).remove(kk)
                        } else {
                            old(self).owned_spec(a)
                        };
                        if a == caller {
                            base.push(id)
                        } else {
                            base
                        }
                    };
        }
        Ok(())
    }

    /// The notifications emitted so far, oldest first.
    pub fn recorded_events(&self) -> (r: &Vec<Transfer>)
        ensures
            r@ == self.events_spec(),
    {
        &self.events
    }
}


/// Every account holds as many tokens as `balance_of` counts, those are the
/// tokens that `tokens_of_owner` lists, and they are exactly the existing
/// tokens whose owner it is: as many as the entries of `get_all_tokens` that
/// it owns.
pub proof fn lemma_balance_matches_ownership(ledger: Erc721, a: AccountId)
    requires
        ledger.well_formed(),
    ensures
        ledger.owned_spec(a).no_duplicates(),
        forall|id: TokenId| ledger.owned_spec(a).contains(id) <==> ledger.owner_spec(id) == Some(a),
        ledger.owned_spec(a).len() == ledger.all_ids().filter(
            |id: TokenId| ledger.owner_spec(id) == Some(a),
        ).len(),
{
    let owned = ledger.owned_spec(a);
    let p = |id: TokenId| ledger.owner_spec(id) == Some(a);
    let listed = ledger.all_ids().filter(p);
    lemma_ids_of_unique(ledger.holdings@, a);
    assert forall|id: TokenId| owned.contains(id) <==> ledger.owner_spec(id) == Some(a) by {
        lemma_ids_of_contains(ledger.holdings@, a, id);
        lemma_holder(ledger.holdings@, id);
        if owned.contains(id) {
            let i = choose|i: int|
                0 <= i < ledger.holdings@.len() && ledger.holdings@[i].id == id
                    && ledger.holdings@[i].owner == a;
            assert(ledger.holdings@[i].id == id);
        }
        if ledger.owner_spec(id) == Some(a) {
            let i = choose|i: int| 0 <= i < ledger.holdings@.len() && ledger.holdings@[i].id == id;
            assert(ledger.holdings@[i].owner == a);
        }
    }
    assert(ledger.all_ids().no_duplicates()) by {
        assert forall|i: int, j: int|
            0 <= i < ledger.all_ids().len() && 0 <= j < ledger.all_ids().len() && i != j implies
            ledger.all_ids()[i] != ledger.all_ids()[j] by {
            if i < j {
                assert(ledger.tokens@[i].id != ledger.tokens@[j].id);
            } else {
                assert(ledger.tokens@[j].id != ledger.tokens@[i].id);
            }
        }
    }
    lemma_filter_unique(ledger.all_ids(), p);
    assert forall|id: TokenId| owned.contains(id) <==> listed.contains(id) by {
        ledger.lemma_lookups(id);
        if listed.contains(id) {
            ledger.all_ids().lemma_filter_contains_rev(p, id);
            let k = choose|k: int| 0 <= k < listed.len() && listed[k] == id;
            ledger.all_ids().lemma_filter_pred(p, k);
        }
        if owned.contains(id) {
            let j = choose|j: int| 0 <= j < ledger.all_ids().len() && ledger.all_ids()[j] == id;
            ledger.all_ids().lemma_filter_contains(p, j);
        }
    }
    assert(owned.to_set() =~= listed.to_set());
    owned.unique_seq_to_set();
    listed.unique_seq_to_set();
}

/// Minting a token and then reading it gives back the metadata it was minted
/// with; burning it afterwards, by the same account, succeeds and leaves it
/// without an owner.
pub proof fn lemma_mint_round_trip(
    pre: Erc721,
    minted_state: Erc721,
    burned_state: Erc721,
    caller: AccountId,
    id: TokenId,
    data: NftData,
)
    requires
        pre.well_formed(),
        minted(pre, minted_state, caller, id, data),
        burned(minted_state, burned_state, caller, id),
    ensures
        minted_state.data_spec(id) == Some(data),
        burn_result(minted_state, caller, id) == Ok::<(), Error>(()),
        burned_state.owner_spec(id) is None,
{
}

/// A token is listed exactly when it has a price, and it is listed once, at
/// that price.
pub proof fn lemma_listed_iff_priced(ledger: Erc721, id: TokenId)
    requires
        ledger.well_formed(),
    ensures
        ledger.price_spec(id) is Some <==> exists|k: int|
            0 <= k < ledger.sale_spec().len() && ledger.sale_spec()[k].id == id,
        forall|k: int|
            0 <= k < ledger.sale_spec().len() && ledger.sale_spec()[k].id == id
                ==> ledger.price_spec(id) == Some(ledger.sale_spec()[k].price),
{
    lemma_price_of(ledger.listing@, id);
    assert(ledger.sale_spec() == ledger.listing@);
    assert(has_listing(ledger.listing@, id) <==> exists|k: int|
        0 <= k < ledger.sale_spec().len() && ledger.sale_spec()[k].id == id);
}

/// In a well-formed ledger the null account owns nothing, and a token exists,
/// has an owner and has metadata all at once.
pub proof fn lemma_owner_never_null(ledger: Erc721, id: TokenId)
    requires
        ledger.well_formed(),
    ensures
        ledger.owner_spec(id) is Some ==> !is_null_account(ledger.owner_spec(id)->0),
        ledger.owner_spec(id) is Some <==> ledger.all_ids().contains(id),
        ledger.owner_spec(id) is Some <==> ledger.data_spec(id) is Some,
{
    ledger.lemma_lookups(id);
}

} // verus!
