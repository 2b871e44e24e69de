use vstd::prelude::*;

verus! {

/// A token identifier.
pub type TokenId = u32;

/// An amount of the native currency.
pub type Balance = u128;

/// An account identity: 32 opaque bytes.
#[derive(Clone, Copy, Debug)]
pub struct AccountId {
    pub bytes: [u8; 32],
}

/// The reserved "no account": all bytes zero. It never owns a token.
pub open spec fn is_null_account(a: AccountId) -> bool {
    forall|i: int| 0 <= i < 32 ==> #[trigger] a.bytes[i] == 0u8
}

impl PartialEq for AccountId {
    fn eq(&self, o: &AccountId) -> (r: bool) {
        let mut i: usize = 0;
        while i < 32
            invariant
                0 <= i <= 32,
                forall|j: int| 0 <= j < i ==> self.bytes@[j] == o.bytes@[j],
            decreases 32 - i,
        {
            if self.bytes[i] != o.bytes[i] {
                return false;
            }
            i = i + 1;
        }
        assert(self.bytes =~= o.bytes);
        true
    }
}

impl vstd::std_specs::cmp::PartialEqSpecImpl for AccountId {
    open spec fn obeys_eq_spec() -> bool {
        true
    }

    open spec fn eq_spec(&self, o: &AccountId) -> bool {
        self.bytes == o.bytes
    }
}

impl Eq for AccountId {
}

impl AccountId {
    /// The account whose 32 bytes are the given ones.
    pub fn from_bytes(bytes: [u8; 32]) -> (r: AccountId)
        ensures
            r.bytes == bytes,
    {
        AccountId { bytes }
    }

    /// Whether this is the reserved null account.
    pub fn is_null(&self) -> (r: bool)
        ensures
            r == is_null_account(*self),
    {
        let mut i: usize = 0;
        while i < 32
            invariant
                0 <= i <= 32,
                forall|j: int| 0 <= j < i ==> self.bytes@[j] == 0u8,
            decreases 32 - i,
        {
            if self.bytes[i] != 0 {
                return false;
            }
            i = i + 1;
        }
        true
    }
}

/// What an operation of the ledger can fail with.
#[derive(Clone, Copy, Debug, PartialEq, Eq, Structural)]
pub enum Error {
    LOL,
    CannotParseMetadata,
    NotOwner,
    NotApproved,
    TokenExists,
    TokenNotFound,
    CannotInsert,
    CannotFetchValue,
    NotAllowed,
    AlreadyForSale,
    NotForSale,
    NotEnoughSent,
    CannotMakeTransfer,
    CannotTransferToken,
}

/// The metadata attached to a token when it is minted.
#[derive(Debug, PartialEq, Eq)]
pub struct NftData {
    pub poebat: Option<String>,
}

impl NftData {
    /// A copy of this metadata.
    pub fn duplicate(&self) -> (r: NftData)
        ensures
            r == *self,
    {
        match &self.poebat {
            Some(s) => NftData { poebat: Some(s.clone()) },
            None => NftData { poebat: None },
        }
    }
}

/// A listing: a token offered for sale at a fixed price.
#[derive(Clone, Copy, Debug, PartialEq, Eq, Structural)]
pub struct ForSale {
    pub id: TokenId,
    pub price: Balance,
}

/// The notification that accompanies every change of ownership. A mint has no
/// `from`, a burn has no `to`.
#[derive(Clone, Copy, Debug, PartialEq, Eq)]
pub struct Transfer {
    pub from: Option<AccountId>,
    pub to: Option<AccountId>,
    pub id: TokenId,
}

} // verus!
