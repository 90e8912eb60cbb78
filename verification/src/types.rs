//! Base values shared by every module: percentages, error conditions,
//! token identifiers and token payments.
use vstd::prelude::*;

verus! {

/// Basis-point denominator: all percentages in the contract are parts of 10_000.
pub const MAX_PERCENTAGE: u64 = 10_000;

/// Upper bound (exclusive) for the protocol fee and for tier/tag fee shares.
pub const MAX_FEE_PERCENTAGE: u64 = 9_000;

/// Every way a call into the contract (or into a routing pair) can fail.
/// Each operation states in its contract exactly when each variant is returned.
#[derive(Clone, Copy, Debug, PartialEq, Eq, Structural)]
pub enum Error {
    /// Protocol fee at or above `MAX_FEE_PERCENTAGE` at initialization.
    InvalidProtocolFee,
    /// Slippage at or above `MAX_PERCENTAGE` at initialization.
    InvalidSlippagePercent,
    /// A reference token identifier given at initialization is malformed.
    InvalidEsdtId,
    /// A top-up payment is not denominated in the wrapped token.
    InvalidToken,
    /// New protocol fee at or above `MAX_FEE_PERCENTAGE`.
    FeePercentInvalid,
    /// New slippage at or above `MAX_FEE_PERCENTAGE`.
    SlippagePercentInvalid,
    /// A token offered for registration is malformed.
    InvalidTokenId,
    /// A routing address offered for registration is not a contract.
    InvalidScAddress,
    /// The split index exceeds the number of attached payments.
    InvalidNumWegld,
    /// A known token's registered destination differs from the group's output token.
    InvalidPayments,
    /// The net converted amount is below the requested minimum.
    SlippageExceeded,
    /// The net converted amount is zero and cannot be disbursed.
    ZeroAmount,
    /// The referral tag is already registered.
    TagAlreadyRegistered,
    /// The caller already owns a referral tag.
    UserAlreadyOwnsTag,
    /// No tiers are configured, so no base percentage can be assigned.
    TiersNotSet,
    /// There is not exactly one tier with minimum volume zero.
    NoBaseTier,
    /// The caller (or given address) owns no referral tag.
    NotATagOwner,
    /// The caller's tag has no accumulated fees.
    NoFeesToClaim,
    /// No eligible tier offers a strictly higher percentage.
    NoTierUpgradeFound,
    /// A tier fee share at or above `MAX_FEE_PERCENTAGE`.
    InvalidFeePercentage,
    /// A tier with the same name already exists.
    TierAlreadyExists,
    /// No tier with the given name exists.
    TierNotFound,
    /// A tag fee share at or above `MAX_FEE_PERCENTAGE`.
    InvalidNewPercentage,
    /// The referral tag is not registered.
    TagNotFound,
    /// The caller lacks the permission the operation demands.
    Unauthorized,
    /// The contract is paused.
    NotActive,
    /// A pair was asked to price a zero amount.
    AmountCannotBeZero,
    /// A pair reported insufficient reserves for the requested swap.
    NotEnoughReserve,
    /// The contract's own balance cannot cover an outgoing transfer.
    InsufficientBalance,
}

impl Error {
    /// The diagnostic text of each failure, as the host would report it.
    pub open spec fn message_spec(self) -> Seq<char> {
        match self {
            Error::InvalidProtocolFee => "Invalid protocol fee value"@,
            Error::InvalidSlippagePercent => "Invalid slippage percent value"@,
            Error::InvalidEsdtId => "Not a valid esdt id"@,
            Error::InvalidToken => "Invalid token"@,
            Error::FeePercentInvalid => "Fee percent invalid"@,
            Error::SlippagePercentInvalid => "Slippage percent invalid"@,
            Error::InvalidTokenId => "Invalid token ID"@,
            Error::InvalidScAddress => "Invalid SC address"@,
            Error::InvalidNumWegld => "Invalid num_wegld"@,
            Error::InvalidPayments => "Invalid payments"@,
            Error::SlippageExceeded => "Slippage exceeded"@,
            Error::ZeroAmount => "Zero amount cannot be claimed"@,
            Error::TagAlreadyRegistered => "Tag already registered"@,
            Error::UserAlreadyOwnsTag => "User already owns a tag"@,
            Error::TiersNotSet => "Tiers not set"@,
            Error::NoBaseTier => "No tier with min volume 0"@,
            Error::NotATagOwner => "Not a tag owner"@,
            Error::NoFeesToClaim => "No fees to claim"@,
            Error::NoTierUpgradeFound => "No tier upgrade found"@,
            Error::InvalidFeePercentage => "Invalid fee percentage"@,
            Error::TierAlreadyExists => "Tier already exists"@,
            Error::TierNotFound => "Tier not found"@,
            Error::InvalidNewPercentage => "Invalid new percentage given"@,
            Error::TagNotFound => "Tag not found"@,
            Error::Unauthorized => "Permission denied"@,
            Error::NotActive => "Contract is not active"@,
            Error::AmountCannotBeZero => "Amount cannot be zero"@,
            Error::NotEnoughReserve => "Not enough reserve"@,
            Error::InsufficientBalance => "Insufficient balance"@,
        }
    }

    /// The diagnostic text of each failure, as the host would report it.
    pub fn message(&self) -> (r: &'static str)
        ensures
            r@ == self.message_spec(),
    {
        match self {
            Error::InvalidProtocolFee => "Invalid protocol fee value",
            Error::InvalidSlippagePercent => "Invalid slippage percent value",
            Error::InvalidEsdtId => "Not a valid esdt id",
            Error::InvalidToken => "Invalid token",
            Error::FeePercentInvalid => "Fee percent invalid",
            Error::SlippagePercentInvalid => "Slippage percent invalid",
            Error::InvalidTokenId => "Invalid token ID",
            Error::InvalidScAddress => "Invalid SC address",
            Error::InvalidNumWegld => "Invalid num_wegld",
            Error::InvalidPayments => "Invalid payments",
            Error::SlippageExceeded => "Slippage exceeded",
            Error::ZeroAmount => "Zero amount cannot be claimed",
            Error::TagAlreadyRegistered => "Tag already registered",
            Error::UserAlreadyOwnsTag => "User already owns a tag",
            Error::TiersNotSet => "Tiers not set",
            Error::NoBaseTier => "No tier with min volume 0",
            Error::NotATagOwner => "Not a tag owner",
            Error::NoFeesToClaim => "No fees to claim",
            Error::NoTierUpgradeFound => "No tier upgrade found",
            Error::InvalidFeePercentage => "Invalid fee percentage",
            Error::TierAlreadyExists => "Tier already exists",
            Error::TierNotFound => "Tier not found",
            Error::InvalidNewPercentage => "Invalid new percentage given",
            Error::TagNotFound => "Tag not found",
            Error::Unauthorized => "Permission denied",
            Error::NotActive => "Contract is not active",
            Error::AmountCannotBeZero => "Amount cannot be zero",
            Error::NotEnoughReserve => "Not enough reserve",
            Error::InsufficientBalance => "Insufficient balance",
        }
    }
}

/// A single fungible-token payment: an identifier, a nonce (always zero for
/// fungible tokens) and an amount.
#[derive(Debug)]
pub struct Payment {
    pub token_identifier: Vec<u8>,
    pub token_nonce: u64,
    pub amount: u128,
}

/// The mathematical value of a [`Payment`].
pub struct PaymentV {
    pub token_identifier: Seq<u8>,
    pub token_nonce: u64,
    pub amount: u128,
}

impl View for Payment {
    type V = PaymentV;

    open spec fn view(&self) -> PaymentV {
        PaymentV {
            token_identifier: self.token_identifier@,
            token_nonce: self.token_nonce,
            amount: self.amount,
        }
    }
}

/// The values of a sequence of payments.
pub open spec fn payment_views(s: Seq<Payment>) -> Seq<PaymentV> {
    s.map_values(|p: Payment| p@)
}

impl Payment {
    pub fn new(token_identifier: Vec<u8>, token_nonce: u64, amount: u128) -> (r: Payment)
        ensures
            r@ == (PaymentV { token_identifier: token_identifier@, token_nonce, amount }),
    {
        Payment { token_identifier, token_nonce, amount }
    }

    /// An independent copy carrying the same value.
    pub fn duplicate(&self) -> (r: Payment)
        ensures
            r@ == self@,
    {
        Payment {
            token_identifier: clone_bytes(&self.token_identifier),
            token_nonce: self.token_nonce,
            amount: self.amount,
        }
    }
}

/// Byte-for-byte copy of a byte string.
pub fn clone_bytes(v: &Vec<u8>) -> (r: Vec<u8>)
    ensures
        r@ == v@,
{
    let r = v.clone();
    proof {
        assert(r@ =~= v@);
    }
    r
}

/// Byte-for-byte equality of two byte strings.
pub fn bytes_eq(a: &Vec<u8>, b: &Vec<u8>) -> (r: bool)
    ensures
        r == (a@ == b@),
{
    if a.len() != b.len() {
        return false;
    }
    let mut i: usize = 0;
    while i < a.len()
        invariant
            a@.len() == b@.len(),
            i <= a@.len(),
            forall|j: int| 0 <= j < i ==> a@[j] == b@[j],
        decreases a@.len() - i,
    {
        if a[i] != b[i] {
            return false;
        }
        i += 1;
    }
    proof {
        assert(a@ =~= b@);
    }
    true
}

/// Shape of a well-formed fungible-token identifier: a ticker of 3 to 10
/// upper-case letters or digits, a dash, and a 6-character lower-case
/// alphanumeric suffix.
pub open spec fn valid_token_id(t: Seq<u8>) -> bool {
    &&& 10 <= t.len() <= 17
    &&& t[t.len() - 7] == 45u8
    &&& forall|i: int| 0 <= i < t.len() - 7 ==> is_ticker_byte(#[trigger] t[i])
    &&& forall|i: int| t.len() - 6 <= i < t.len() ==> is_suffix_byte(#[trigger] t[i])
}

/// Upper-case letter or digit.
pub open spec fn is_ticker_byte(c: u8) -> bool {
    (65 <= c <= 90) || (48 <= c <= 57)
}

/// Lower-case letter or digit.
pub open spec fn is_suffix_byte(c: u8) -> bool {
    (97 <= c <= 122) || (48 <= c <= 57)
}

/// Checks that a token identifier is well-formed (see [`valid_token_id`]).
pub fn is_valid_esdt_identifier(t: &Vec<u8>) -> (r: bool)
    ensures
        r == valid_token_id(t@),
{
    let n = t.len();
    if n < 10 || n > 17 {
        return false;
    }
    if t[n - 7] != 45u8 {
        return false;
    }
    let mut i: usize = 0;
    while i < n - 7
        invariant
            n == t@.len(),
            10 <= n <= 17,
            i <= n - 7,
            forall|j: int| 0 <= j < i ==> is_ticker_byte(#[trigger] t@[j]),
        decreases n - 7 - i,
    {
        let c = t[i];
        if !((65 <= c && c <= 90) || (48 <= c && c <= 57)) {
            return false;
        }
        i += 1;
    }
    let mut k: usize = n - 6;
    while k < n
        invariant
            n == t@.len(),
            10 <= n <= 17,
            n - 6 <= k <= n,
            forall|j: int| n - 6 <= j < k ==> is_suffix_byte(#[trigger] t@[j]),
        decreases n - k,
    {
        let c = t[k];
        if !((97 <= c && c <= 122) || (48 <= c && c <= 57)) {
            return false;
        }
        k += 1;
    }
    true
}

} // verus!
