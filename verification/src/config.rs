//! The token registry, the contract's own token balances, and the global
//! fee/slippage parameters, together with their administrative operations.
use vstd::prelude::*;

use crate::access::{AccessControl, Blockchain};
use crate::types::{
    bytes_eq, clone_bytes, is_valid_esdt_identifier, valid_token_id, Error, Payment, PaymentV,
    MAX_FEE_PERCENTAGE, MAX_PERCENTAGE,
};

verus! {

/// Where payments of one input token are routed: the pair contract to call
/// and the token that the pair pays out.
#[derive(Debug)]
pub struct PairContractData {
    pub address: u64,
    pub output_token: Vec<u8>,
}

/// The mathematical value of a [`PairContractData`].
pub struct PairContractDataV {
    pub address: u64,
    pub output_token: Seq<u8>,
}

impl View for PairContractData {
    type V = PairContractDataV;

    open spec fn view(&self) -> PairContractDataV {
        PairContractDataV { address: self.address, output_token: self.output_token@ }
    }
}

/// One registry entry: an accepted input token, its route, and the minimum
/// quoted output below which the liquidation sweep leaves it alone.
#[derive(Debug)]
pub struct KnownToken {
    pub token: Vec<u8>,
    pub pair: PairContractData,
    pub threshold: u128,
}

/// The mathematical value of a [`KnownToken`].
pub struct KnownTokenV {
    pub token: Seq<u8>,
    pub pair: PairContractDataV,
    pub threshold: u128,
}

impl View for KnownToken {
    type V = KnownTokenV;

    open spec fn view(&self) -> KnownTokenV {
        KnownTokenV { token: self.token@, pair: self.pair@, threshold: self.threshold }
    }
}

/// One entry offered to `add_known_tokens`: the input token, the routing pair
/// address, and the liquidation threshold.
#[derive(Debug)]
pub struct AddKnownTokenType {
    pub token: Vec<u8>,
    pub sc_address: u64,
    pub min_amount: u128,
}

/// The mathematical value of an [`AddKnownTokenType`].
pub struct AddKnownTokenTypeV {
    pub token: Seq<u8>,
    pub sc_address: u64,
    pub min_amount: u128,
}

impl View for AddKnownTokenType {
    type V = AddKnownTokenTypeV;

    open spec fn view(&self) -> AddKnownTokenTypeV {
        AddKnownTokenTypeV {
            token: self.token@,
            sc_address: self.sc_address,
            min_amount: self.min_amount,
        }
    }
}

/// The contract's own holding of one token.
#[derive(Debug)]
pub struct TokenBalance {
    pub token: Vec<u8>,
    pub amount: u128,
}

/// The mathematical value of a [`TokenBalance`].
pub struct TokenBalanceV {
    pub token: Seq<u8>,
    pub amount: u128,
}

impl View for TokenBalance {
    type V = TokenBalanceV;

    open spec fn view(&self) -> TokenBalanceV {
        TokenBalanceV { token: self.token@, amount: self.amount }
    }
}

/// The values of a sequence of registry entries.
pub open spec fn reg_views(s: Seq<KnownToken>) -> Seq<KnownTokenV> {
    s.map_values(|e: KnownToken| e@)
}

/// The values of a sequence of balances.
pub open spec fn bal_views(s: Seq<TokenBalance>) -> Seq<TokenBalanceV> {
    s.map_values(|b: TokenBalance| b@)
}

/// The values of a sequence of registration entries.
pub open spec fn entry_views(s: Seq<AddKnownTokenType>) -> Seq<AddKnownTokenTypeV> {
    s.map_values(|e: AddKnownTokenType| e@)
}

/// The values of a sequence of byte strings.
pub open spec fn byte_views(s: Seq<Vec<u8>>) -> Seq<Seq<u8>> {
    s.map_values(|v: Vec<u8>| v@)
}

/// Index of the first registry entry for `t`, or `-1` if there is none.
pub open spec fn reg_index(reg: Seq<KnownTokenV>, t: Seq<u8>) -> int
    decreases reg.len(),
{
    if reg.len() == 0 {
        -1
    } else if reg[0].token == t {
        0
    } else {
        let r = reg_index(reg.drop_first(), t);
        if r == -1 {
            -1
        } else {
            r + 1
        }
    }
}

/// Whether the registry has an entry for `t`.
pub open spec fn reg_contains(reg: Seq<KnownTokenV>, t: Seq<u8>) -> bool {
    reg_index(reg, t) >= 0
}

/// The registry entry for `t` (meaningful only when one exists).
pub open spec fn reg_entry(reg: Seq<KnownTokenV>, t: Seq<u8>) -> KnownTokenV {
    reg[reg_index(reg, t)]
}

/// `reg_index` finds the first entry for `t`, and `-1` means there is none.
pub proof fn lemma_reg_index(reg: Seq<KnownTokenV>, t: Seq<u8>)
    ensures
        -1 <= reg_index(reg, t) < reg.len(),
        reg_index(reg, t) >= 0 ==> reg[reg_index(reg, t)].token == t,
        forall|j: int| 0 <= j < reg_index(reg, t) ==> reg[j].token != t,
        reg_index(reg, t) == -1 ==> forall|j: int| 0 <= j < reg.len() ==> reg[j].token != t,
    decreases reg.len(),
{
    if reg.len() > 0 {
        let rest = reg.drop_first();
        lemma_reg_index(rest, t);
        assert(forall|j: int| 0 <= j < rest.len() ==> rest[j] == reg[j + 1]);
        if reg[0].token != t {
            assert forall|j: int| 1 <= j < reg.len() && (j < reg_index(reg, t) || reg_index(
                reg,
                t,
            ) == -1) implies reg[j].token != t by {
                assert(reg[j] == rest[j - 1]);
            }
        }
    }
}

/// Index of the first balance entry for `t`, or `-1` if there is none.
pub open spec fn bal_index(s: Seq<TokenBalanceV>, t: Seq<u8>) -> int
    decreases s.len(),
{
    if s.len() == 0 {
        -1
    } else if s[0].token == t {
        0
    } else {
        let r = bal_index(s.drop_first(), t);
        if r == -1 {
            -1
        } else {
            r + 1
        }
    }
}

/// The contract's holding of `t` in a balance list (zero when absent).
pub open spec fn bal_in(s: Seq<TokenBalanceV>, t: Seq<u8>) -> u128 {
    if bal_index(s, t) >= 0 {
        s[bal_index(s, t)].amount
    } else {
        0
    }
}

/// `bal_index` finds the first entry for `t`, and `-1` means there is none.
pub proof fn lemma_bal_index(s: Seq<TokenBalanceV>, t: Seq<u8>)
    ensures
        -1 <= bal_index(s, t) < s.len(),
        bal_index(s, t) >= 0 ==> s[bal_index(s, t)].token == t,
        forall|j: int| 0 <= j < bal_index(s, t) ==> s[j].token != t,
        bal_index(s, t) == -1 ==> forall|j: int| 0 <= j < s.len() ==> s[j].token != t,
    decreases s.len(),
{
    if s.len() > 0 {
        let rest = s.drop_first();
        lemma_bal_index(rest, t);
        assert(forall|j: int| 0 <= j < rest.len() ==> rest[j] == s[j + 1]);
        if s[0].token != t {
            assert forall|j: int| 1 <= j < s.len() && (j < bal_index(s, t) || bal_index(s, t)
                == -1) implies s[j].token != t by {
                assert(s[j] == rest[j - 1]);
            }
        }
    }
}

/// No token appears twice.
pub open spec fn unique_reg_tokens(reg: Seq<KnownTokenV>) -> bool {
    forall|i: int, j: int| 0 <= i < j < reg.len() ==> reg[i].token != reg[j].token
}

/// No token appears twice.
pub open spec fn unique_bal_tokens(s: Seq<TokenBalanceV>) -> bool {
    forall|i: int, j: int| 0 <= i < j < s.len() ==> s[i].token != s[j].token
}

/// The known input tokens routed to `out`, in registry order.
pub open spec fn tokens_for(reg: Seq<KnownTokenV>, out: Seq<u8>) -> Seq<Seq<u8>>
    decreases reg.len(),
{
    if reg.len() == 0 {
        Seq::empty()
    } else {
        let prefix = tokens_for(reg.drop_last(), out);
        if reg.last().pair.output_token == out {
            prefix.push(reg.last().token)
        } else {
            prefix
        }
    }
}

/// The registry after registering a list of entries routed to `out`:
/// each entry must carry a well-formed token and, when the token is new, a
/// routing address the host knows as a contract; entries whose token is
/// already known are skipped.
pub open spec fn add_entries(
    reg: Seq<KnownTokenV>,
    bc: Blockchain,
    out: Seq<u8>,
    entries: Seq<AddKnownTokenTypeV>,
) -> Result<Seq<KnownTokenV>, Error>
    decreases entries.len(),
{
    if entries.len() == 0 {
        Ok(reg)
    } else {
        match add_entries(reg, bc, out, entries.drop_last()) {
            Err(e) => Err(e),
            Ok(r1) => {
                let e = entries.last();
                if !valid_token_id(e.token) {
                    Err(Error::InvalidTokenId)
                } else if reg_contains(r1, e.token) {
                    Ok(r1)
                } else if !bc.is_contract(e.sc_address) {
                    Err(Error::InvalidScAddress)
                } else {
                    Ok(
                        r1.push(
                            KnownTokenV {
                                token: e.token,
                                pair: PairContractDataV { address: e.sc_address, output_token: out },
                                threshold: e.min_amount,
                            },
                        ),
                    )
                }
            },
        }
    }
}

/// The registry after removing a list of tokens; unknown tokens are skipped.
pub open spec fn remove_entries(reg: Seq<KnownTokenV>, tokens: Seq<Seq<u8>>) -> Seq<KnownTokenV>
    decreases tokens.len(),
{
    if tokens.len() == 0 {
        reg
    } else {
        let r1 = remove_entries(reg, tokens.drop_last());
        let i = reg_index(r1, tokens.last());
        if i >= 0 {
            r1.remove(i)
        } else {
            r1
        }
    }
}

/// Global parameters, the token registry, the accumulated protocol fee, and
/// the contract's own token holdings.
#[derive(Debug)]
pub struct ConfigModule {
    pub protocol_fee_percent: u64,
    pub slippage_percent: u64,
    pub wrapped_token: Vec<u8>,
    pub usdc_token: Vec<u8>,
    pub collected_fee_amount: u128,
    pub known_tokens: Vec<KnownToken>,
    pub balances: Vec<TokenBalance>,
}

impl ConfigModule {
    /// The registry's value.
    pub open spec fn reg(&self) -> Seq<KnownTokenV> {
        reg_views(self.known_tokens@)
    }

    /// Whether `t` is a known input token.
    pub open spec fn known(&self, t: Seq<u8>) -> bool {
        reg_contains(self.reg(), t)
    }

    /// The registry entry of a known token.
    pub open spec fn entry(&self, t: Seq<u8>) -> KnownTokenV {
        reg_entry(self.reg(), t)
    }

    /// The contract's holding of `t`.
    pub open spec fn bal(&self, t: Seq<u8>) -> u128 {
        bal_in(bal_views(self.balances@), t)
    }

    /// Structural soundness: percentages below their caps, well-formed
    /// reference tokens, and no duplicate keys.
    pub open spec fn wf(&self) -> bool {
        &&& self.protocol_fee_percent < MAX_FEE_PERCENTAGE
        &&& self.slippage_percent < MAX_PERCENTAGE
        &&& valid_token_id(self.wrapped_token@)
        &&& valid_token_id(self.usdc_token@)
        &&& unique_reg_tokens(self.reg())
        &&& unique_bal_tokens(bal_views(self.balances@))
    }

    /// Index of the registry entry for `token`, if the token is known.
    pub fn find_known(&self, token: &Vec<u8>) -> (r: Option<usize>)
        ensures
            match r {
                Some(i) => i == reg_index(self.reg(), token@) && i < self.known_tokens@.len(),
                None => !self.known(token@),
            },
    {
        proof {
            lemma_reg_index(self.reg(), token@);
        }
        let mut i: usize = 0;
        while i < self.known_tokens.len()
            invariant
                i <= self.known_tokens@.len(),
                forall|j: int| 0 <= j < i ==> reg_views(self.known_tokens@)[j].token != token@,
            decreases self.known_tokens@.len() - i,
        {
            if bytes_eq(&self.known_tokens[i].token, token) {
                proof {
                    lemma_reg_index(self.reg(), token@);
                    assert(self.reg()[i as int] == self.known_tokens@[i as int]@);
                    assert(self.reg()[i as int].token == token@);
                }
                return Some(i);
            }
            i += 1;
        }
        proof {
            lemma_reg_index(self.reg(), token@);
        }
        None
    }

    /// Whether `token` is a known input token.
    pub fn is_known_token(&self, token: &Vec<u8>) -> (r: bool)
        ensures
            r == self.known(token@),
    {
        self.find_known(token).is_some()
    }

    /// Index of the balance entry for `token`, if the contract holds any.
    fn find_balance(&self, token: &Vec<u8>) -> (r: Option<usize>)
        ensures
            match r {
                Some(i) => i == bal_index(bal_views(self.balances@), token@) && i
                    < self.balances@.len(),
                None => bal_index(bal_views(self.balances@), token@) == -1,
            },
    {
        proof {
            lemma_bal_index(bal_views(self.balances@), token@);
        }
        let mut i: usize = 0;
        while i < self.balances.len()
            invariant
                i <= self.balances@.len(),
                forall|j: int| 0 <= j < i ==> bal_views(self.balances@)[j].token != token@,
            decreases self.balances@.len() - i,
        {
            if bytes_eq(&self.balances[i].token, token) {
                proof {
                    lemma_bal_index(bal_views(self.balances@), token@);
                    assert(bal_views(self.balances@)[i as int] == self.balances@[i as int]@);
                    assert(bal_views(self.balances@)[i as int].token == token@);
                }
                return Some(i);
            }
            i += 1;
        }
        proof {
            lemma_bal_index(bal_views(self.balances@), token@);
        }
        None
    }

    /// The contract's holding of `token`.
    pub fn balance_of(&self, token: &Vec<u8>) -> (r: u128)
        ensures
            r == self.bal(token@),
    {
        match self.find_balance(token) {
            Some(i) => self.balances[i].amount,
            None => 0,
        }
    }

    /// Adds `amount` to the contract's holding of `token`; every other
    /// holding and every other field keeps its value.
    pub fn credit(&mut self, token: &Vec<u8>, amount: u128)
        requires
            old(self).wf(),
            old(self).bal(token@) + amount <= u128::MAX,
        ensures
            final(self).wf(),
            final(self).bal(token@) == old(self).bal(token@) + amount,
            forall|t: Seq<u8>| t != token@ ==> final(self).bal(t) == old(self).bal(t),
            *final(self) == (ConfigModule { balances: final(self).balances, ..*old(self) }),
            final(self).reg() == old(self).reg(),
    {
        proof {
            lemma_bal_index(bal_views(self.balances@), token@);
        }
        match self.find_balance(token) {
            Some(i) => {
                let tok = clone_bytes(&self.balances[i].token);
                let amt = self.balances[i].amount;
                self.balances[i] = TokenBalance { token: tok, amount: amt + amount };
                proof {
                    let olds = bal_views(old(self).balances@);
                    let news = bal_views(self.balances@);
                    assert(news =~= olds.update(
                        i as int,
                        TokenBalanceV { token: token@, amount: (amt + amount) as u128 },
                    ));
                    assert forall|t: Seq<u8>| t != token@ implies bal_in(news, t) == bal_in(
                        olds,
                        t,
                    ) by {
                        lemma_bal_index(news, t);
                        lemma_bal_index(olds, t);
                        lemma_bal_index_same_tokens(olds, news, t);
                    }
                    lemma_bal_index_same_tokens(olds, news, token@);
                }
            },
            None => {
                let tok = clone_bytes(token);
                self.balances.push(TokenBalance { token: tok, amount });
                proof {
                    let olds = bal_views(old(self).balances@);
                    let news = bal_views(self.balances@);
                    assert(news =~= olds.push(TokenBalanceV { token: token@, amount }));
                    lemma_bal_index_push(olds, TokenBalanceV { token: token@, amount });
                    assert forall|t: Seq<u8>| t != token@ implies bal_in(news, t) == bal_in(
                        olds,
                        t,
                    ) by {
                        lemma_bal_index(news, t);
                        lemma_bal_index(olds, t);
                    }
                }
            },
        }
    }

    /// Removes `amount` from the contract's holding of `token`; every other
    /// holding and every other field keeps its value.
    pub fn debit(&mut self, token: &Vec<u8>, amount: u128)
        requires
            old(self).wf(),
            amount <= old(self).bal(token@),
        ensures
            final(self).wf(),
            final(self).bal(token@) == old(self).bal(token@) - amount,
            forall|t: Seq<u8>| t != token@ ==> final(self).bal(t) == old(self).bal(t),
            *final(self) == (ConfigModule { balances: final(self).balances, ..*old(self) }),
            final(self).reg() == old(self).reg(),
    {
        proof {
            lemma_bal_index(bal_views(self.balances@), token@);
        }
        if amount == 0 {
            return ;
        }
        match self.find_balance(token) {
            Some(i) => {
                let tok = clone_bytes(&self.balances[i].token);
                let amt = self.balances[i].amount;
                self.balances[i] = TokenBalance { token: tok, amount: amt - amount };
                proof {
                    let olds = bal_views(old(self).balances@);
                    let news = bal_views(self.balances@);
                    assert(news =~= olds.update(
                        i as int,
                        TokenBalanceV { token: token@, amount: (amt - amount) as u128 },
                    ));
                    assert forall|t: Seq<u8>| t != token@ implies bal_in(news, t) == bal_in(
                        olds,
                        t,
                    ) by {
                        lemma_bal_index(news, t);
                        lemma_bal_index(olds, t);
                        lemma_bal_index_same_tokens(olds, news, t);
                    }
                    lemma_bal_index_same_tokens(olds, news, token@);
                }
            },
            None => {
                // amount <= bal == 0 and amount != 0 is impossible
                proof {
                    assert(false);
                }
            },
        }
    }

    /// Accepts a reserve top-up: the payment must be denominated in the
    /// wrapped token and is added to the contract's holdings.
    pub fn top_up(&mut self, access: &AccessControl, caller: u64, payment: Payment) -> (r: Result<
        (),
        Error,
    >)
        requires
            old(self).wf(),
            old(self).bal(old(self).wrapped_token@) + payment@.amount <= u128::MAX,
        ensures
            final(self).wf(),
            !access.has_owner_or_admin(caller) ==> r == Err::<(), Error>(Error::Unauthorized)
                && *final(self) == *old(self),
            access.has_owner_or_admin(caller) && payment@.token_identifier != old(self).wrapped_token@ ==> r == Err::<(), Error>(Error::InvalidToken) && *final(self) == *old(self),
            access.has_owner_or_admin(caller) && payment@.token_identifier == old(self).wrapped_token@ ==> {
                &&& r is Ok
                &&& final(self).bal(old(self).wrapped_token@) == old(self).bal(
                    old(self).wrapped_token@,
                ) + payment@.amount
                &&& forall|t: Seq<u8>|
                    t != old(self).wrapped_token@ ==> final(self).bal(t) == old(self).bal(t)
                &&& *final(self) == (ConfigModule {
                    balances: final(self).balances,
                    ..*old(self)
                })
            },
    {
        if let Err(e) = access.require_caller_has_owner_or_admin_permissions(caller) {
            return Err(e);
        }
        if !bytes_eq(&payment.token_identifier, &self.wrapped_token) {
            return Err(Error::InvalidToken);
        }
        let token = clone_bytes(&self.wrapped_token);
        self.credit(&token, payment.amount);
        Ok(())
    }

    /// Pays the accumulated protocol fee out to the owner and resets it to
    /// zero. Fails if the wrapped-token holding cannot cover it.
    pub fn extract_fees(&mut self, access: &AccessControl, caller: u64) -> (r: Result<
        Payment,
        Error,
    >)
        requires
            old(self).wf(),
        ensures
            final(self).wf(),
            !access.has_owner(caller) ==> r == Err::<Payment, Error>(Error::Unauthorized) && *final(self) == *old(self),
            access.has_owner(caller) && old(self).collected_fee_amount > old(self).bal(
                old(self).wrapped_token@,
            ) ==> r == Err::<Payment, Error>(Error::InsufficientBalance) && *final(self) == *old(self),
            access.has_owner(caller) && old(self).collected_fee_amount <= old(self).bal(
                old(self).wrapped_token@,
            ) ==> {
                &&& r matches Ok(p) && p@ == (PaymentV {
                    token_identifier: old(self).wrapped_token@,
                    token_nonce: 0u64,
                    amount: old(self).collected_fee_amount,
                })
                &&& final(self).collected_fee_amount == 0
                &&& final(self).bal(old(self).wrapped_token@) == old(self).bal(
                    old(self).wrapped_token@,
                ) - old(self).collected_fee_amount
                &&& forall|t: Seq<u8>|
                    t != old(self).wrapped_token@ ==> final(self).bal(t) == old(self).bal(t)
                &&& final(self).reg() == old(self).reg()
                &&& final(self).protocol_fee_percent == old(self).protocol_fee_percent
                &&& final(self).slippage_percent == old(self).slippage_percent
                &&& final(self).wrapped_token@ == old(self).wrapped_token@
                &&& final(self).usdc_token@ == old(self).usdc_token@
            },
    {
        if let Err(e) = access.require_caller_has_owner_permissions(caller) {
            return Err(e);
        }
        let fee_amount = self.collected_fee_amount;
        let token = clone_bytes(&self.wrapped_token);
        if fee_amount > self.balance_of(&token) {
            return Err(Error::InsufficientBalance);
        }
        self.debit(&token, fee_amount);
        self.collected_fee_amount = 0;
        Ok(Payment::new(token, 0, fee_amount))
    }

    /// Sets the protocol fee percentage; it must stay below
    /// `MAX_FEE_PERCENTAGE`.
    pub fn set_fee_percentage(&mut self, access: &AccessControl, caller: u64, protocol_fee: u64) -> (r:
        Result<(), Error>)
        requires
            old(self).wf(),
        ensures
            final(self).wf(),
            !access.has_owner(caller) ==> r == Err::<(), Error>(Error::Unauthorized) && *final(self)
                == *old(self),
            access.has_owner(caller) && protocol_fee >= MAX_FEE_PERCENTAGE ==> r == Err::<
                (),
                Error,
            >(Error::FeePercentInvalid) && *final(self) == *old(self),
            access.has_owner(caller) && protocol_fee < MAX_FEE_PERCENTAGE ==> r is Ok && *final(self) == (ConfigModule { protocol_fee_percent: protocol_fee, ..*old(self) }),
    {
        if let Err(e) = access.require_caller_has_owner_permissions(caller) {
            return Err(e);
        }
        if protocol_fee >= MAX_FEE_PERCENTAGE {
            return Err(Error::FeePercentInvalid);
        }
        self.protocol_fee_percent = protocol_fee;
        Ok(())
    }

    /// Sets the slippage percentage; it must stay below
    /// `MAX_FEE_PERCENTAGE`.
    pub fn set_slippage_percentage(&mut self, access: &AccessControl, caller: u64, slippage: u64) -> (r:
        Result<(), Error>)
        requires
            old(self).wf(),
        ensures
            final(self).wf(),
            !access.has_owner_or_admin(caller) ==> r == Err::<(), Error>(Error::Unauthorized)
                && *final(self) == *old(self),
            access.has_owner_or_admin(caller) && slippage >= MAX_FEE_PERCENTAGE ==> r == Err::<
                (),
                Error,
            >(Error::SlippagePercentInvalid) && *final(self) == *old(self),
            access.has_owner_or_admin(caller) && slippage < MAX_FEE_PERCENTAGE ==> r is Ok
                && *final(self) == (ConfigModule { slippage_percent: slippage, ..*old(self) }),
    {
        if let Err(e) = access.require_caller_has_owner_or_admin_permissions(caller) {
            return Err(e);
        }
        if slippage >= MAX_FEE_PERCENTAGE {
            return Err(Error::SlippagePercentInvalid);
        }
        self.slippage_percent = slippage;
        Ok(())
    }

    /// Registers a list of input tokens, all routed to `output_token`.
    /// Already-known tokens are skipped; a malformed token or a routing
    /// address that is not a contract aborts the whole call unchanged.
    pub fn add_known_tokens(
        &mut self,
        access: &AccessControl,
        caller: u64,
        blockchain: &Blockchain,
        output_token: &Vec<u8>,
        entries: &Vec<AddKnownTokenType>,
    ) -> (r: Result<(), Error>)
        requires
            old(self).wf(),
        ensures
            final(self).wf(),
            *final(self) == (ConfigModule { known_tokens: final(self).known_tokens, ..*old(self) }),
            !access.has_owner_or_admin(caller) ==> r == Err::<(), Error>(Error::Unauthorized)
                && *final(self) == *old(self),
            access.has_owner_or_admin(caller) ==> match add_entries(
                old(self).reg(),
                *blockchain,
                output_token@,
                entry_views(entries@),
            ) {
                Ok(rr) => r is Ok && final(self).reg() == rr,
                Err(e) => r == Err::<(), Error>(e) && final(self).reg() == old(self).reg(),
            },
    {
        if let Err(e) = access.require_caller_has_owner_or_admin_permissions(caller) {
            return Err(e);
        }
        let ghost all_entries = entry_views(entries@);
        let orig_len = self.known_tokens.len();
        let mut k: usize = 0;
        proof {
            assert(all_entries.take(0) =~= Seq::<AddKnownTokenTypeV>::empty());
        }
        while k < entries.len()
            invariant
                old(self).wf(),
                k <= entries@.len(),
                all_entries == entry_views(entries@),
                orig_len == old(self).known_tokens@.len(),
                self.known_tokens@.len() >= orig_len,
                self.known_tokens@.take(orig_len as int) =~= old(self).known_tokens@,
                access.has_owner_or_admin(caller),
                unique_reg_tokens(self.reg()),
                add_entries(old(self).reg(), *blockchain, output_token@, all_entries.take(k as int))
                    == Ok::<Seq<KnownTokenV>, Error>(self.reg()),
                *self == (ConfigModule { known_tokens: self.known_tokens, ..*old(self) }),
            decreases entries@.len() - k,
        {
            proof {
                assert(all_entries.take(k + 1).drop_last() =~= all_entries.take(k as int));
                assert(all_entries.take(k + 1).last() == entries@[k as int]@);
            }
            let entry = &entries[k];
            if !is_valid_esdt_identifier(&entry.token) {
                proof {
                    lemma_add_entries_prefix_err(
                        old(self).reg(),
                        *blockchain,
                        output_token@,
                        all_entries,
                        k + 1,
                    );
                }
                self.known_tokens.truncate(orig_len);
                proof {
                    assert(self.known_tokens@ =~= old(self).known_tokens@);
                }
                return Err(Error::InvalidTokenId);
            }
            if self.find_known(&entry.token).is_none() {
                if !blockchain.is_smart_contract(entry.sc_address) {
                    proof {
                        lemma_add_entries_prefix_err(
                            old(self).reg(),
                            *blockchain,
                            output_token@,
                            all_entries,
                            k + 1,
                        );
                    }
                    self.known_tokens.truncate(orig_len);
                    proof {
                        assert(self.known_tokens@ =~= old(self).known_tokens@);
                    }
                    return Err(Error::InvalidScAddress);
                }
                let new_entry = KnownToken {
                    token: clone_bytes(&entry.token),
                    pair: PairContractData {
                        address: entry.sc_address,
                        output_token: clone_bytes(output_token),
                    },
                    threshold: entry.min_amount,
                };
                let ghost prev = self.reg();
                proof {
                    lemma_unique_push(prev, new_entry@);
                }
                self.known_tokens.push(new_entry);
                proof {
                    assert(self.reg() =~= prev.push(new_entry@));
                }
            }
            k += 1;
        }
        proof {
            assert(all_entries.take(entries@.len() as int) =~= all_entries);
        }
        Ok(())
    }

    /// Unregisters a list of input tokens; unknown tokens are skipped.
    pub fn remove_known_tokens(
        &mut self,
        access: &AccessControl,
        caller: u64,
        tokens: &Vec<Vec<u8>>,
    ) -> (r: Result<(), Error>)
        requires
            old(self).wf(),
        ensures
            final(self).wf(),
            *final(self) == (ConfigModule { known_tokens: final(self).known_tokens, ..*old(self) }),
            !access.has_owner_or_admin(caller) ==> r == Err::<(), Error>(Error::Unauthorized)
                && *final(self) == *old(self),
            access.has_owner_or_admin(caller) ==> r is Ok && final(self).reg() == remove_entries(
                old(self).reg(),
                byte_views(tokens@),
            ),
    {
        if let Err(e) = access.require_caller_has_owner_or_admin_permissions(caller) {
            return Err(e);
        }
        let ghost all_tokens = byte_views(tokens@);
        let mut k: usize = 0;
        proof {
            assert(all_tokens.take(0) =~= Seq::<Seq<u8>>::empty());
        }
        while k < tokens.len()
            invariant
                old(self).wf(),
                k <= tokens@.len(),
                all_tokens == byte_views(tokens@),
                access.has_owner_or_admin(caller),
                unique_reg_tokens(self.reg()),
                remove_entries(old(self).reg(), all_tokens.take(k as int)) == self.reg(),
                *self == (ConfigModule { known_tokens: self.known_tokens, ..*old(self) }),
            decreases tokens@.len() - k,
        {
            proof {
                assert(all_tokens.take(k + 1).drop_last() =~= all_tokens.take(k as int));
                assert(all_tokens.take(k + 1).last() == tokens@[k as int]@);
            }
            if let Some(i) = self.find_known(&tokens[k]) {
                let ghost prev = self.reg();
                proof {
                    lemma_unique_remove(prev, i as int);
                }
                self.known_tokens.remove(i);
                proof {
                    assert(self.reg() =~= prev.remove(i as int));
                }
            }
            k += 1;
        }
        proof {
            assert(all_tokens.take(tokens@.len() as int) =~= all_tokens);
        }
        Ok(())
    }

    /// The known input tokens routed to `output_token`, in registry order.
    pub fn get_all_tokens(&self, output_token: &Vec<u8>) -> (r: Vec<Vec<u8>>)
        ensures
            byte_views(r@) == tokens_for(self.reg(), output_token@),
    {
        let mut r: Vec<Vec<u8>> = Vec::new();
        let mut i: usize = 0;
        proof {
            assert(byte_views(r@) =~= Seq::<Seq<u8>>::empty());
            assert(self.reg().take(0) =~= Seq::<KnownTokenV>::empty());
        }
        while i < self.known_tokens.len()
            invariant
                i <= self.known_tokens@.len(),
                byte_views(r@) == tokens_for(self.reg().take(i as int), output_token@),
            decreases self.known_tokens@.len() - i,
        {
            proof {
                assert(self.reg().take(i + 1).drop_last() =~= self.reg().take(i as int));
                assert(self.reg().take(i + 1).last() == self.reg()[i as int]);
                assert(self.reg()[i as int] == self.known_tokens@[i as int]@);
            }
            if bytes_eq(&self.known_tokens[i].pair.output_token, output_token) {
                r.push(clone_bytes(&self.known_tokens[i].token));
                proof {
                    assert(byte_views(r@) =~= tokens_for(
                        self.reg().take(i + 1),
                        output_token@,
                    ));
                }
            }
            proof {
                assert(byte_views(r@) =~= tokens_for(self.reg().take(i + 1), output_token@));
            }
            i += 1;
        }
        proof {
            assert(self.reg().take(self.known_tokens@.len() as int) =~= self.reg());
        }
        r
    }

    /// The liquidation threshold of a token (zero when unknown).
    pub fn token_threshold(&self, token: &Vec<u8>) -> (r: u128)
        ensures
            r == if self.known(token@) {
                self.entry(token@).threshold
            } else {
                0u128
            },
    {
        match self.find_known(token) {
            Some(i) => self.known_tokens[i].threshold,
            None => 0,
        }
    }
}

/// Once a registration prefix has failed, the whole registration fails the
/// same way.
pub proof fn lemma_add_entries_prefix_err(
    reg: Seq<KnownTokenV>,
    bc: Blockchain,
    out: Seq<u8>,
    entries: Seq<AddKnownTokenTypeV>,
    m: int,
)
    requires
        0 <= m <= entries.len(),
        add_entries(reg, bc, out, entries.take(m)) is Err,
    ensures
        add_entries(reg, bc, out, entries) == add_entries(reg, bc, out, entries.take(m)),
    decreases entries.len() - m,
{
    if m == entries.len() {
        assert(entries.take(m) =~= entries);
    } else {
        assert(entries.take(m + 1).drop_last() =~= entries.take(m));
        lemma_add_entries_prefix_err(reg, bc, out, entries, m + 1);
    }
}

/// Pushing an unknown token keeps registry tokens unique.
pub proof fn lemma_unique_push(reg: Seq<KnownTokenV>, e: KnownTokenV)
    requires
        unique_reg_tokens(reg),
        !reg_contains(reg, e.token),
    ensures
        unique_reg_tokens(reg.push(e)),
{
    lemma_reg_index(reg, e.token);
    assert forall|i: int, j: int| 0 <= i < j < reg.push(e).len() implies reg.push(e)[i].token
        != reg.push(e)[j].token by {
        if j < reg.len() {
            assert(reg.push(e)[i] == reg[i] && reg.push(e)[j] == reg[j]);
        } else {
            assert(reg.push(e)[i] == reg[i] && reg.push(e)[j] == e);
        }
    }
}

/// Removing an entry keeps registry tokens unique.
pub proof fn lemma_unique_remove(reg: Seq<KnownTokenV>, i: int)
    requires
        unique_reg_tokens(reg),
        0 <= i < reg.len(),
    ensures
        unique_reg_tokens(reg.remove(i)),
{
    assert forall|a: int, b: int| 0 <= a < b < reg.remove(i).len() implies reg.remove(i)[a].token
        != reg.remove(i)[b].token by {
        let a0 = if a < i {
            a
        } else {
            a + 1
        };
        let b0 = if b < i {
            b
        } else {
            b + 1
        };
        assert(reg.remove(i)[a] == reg[a0]);
        assert(reg.remove(i)[b] == reg[b0]);
    }
}

/// Two balance lists with pointwise-equal tokens are searched identically.
pub proof fn lemma_bal_index_same_tokens(a: Seq<TokenBalanceV>, b: Seq<TokenBalanceV>, t: Seq<u8>)
    requires
        a.len() == b.len(),
        forall|i: int| 0 <= i < a.len() ==> a[i].token == b[i].token,
    ensures
        bal_index(a, t) == bal_index(b, t),
    decreases a.len(),
{
    if a.len() > 0 {
        assert forall|i: int| 0 <= i < a.drop_first().len() implies a.drop_first()[i].token
            == b.drop_first()[i].token by {
            assert(a.drop_first()[i] == a[i + 1]);
            assert(b.drop_first()[i] == b[i + 1]);
        }
        lemma_bal_index_same_tokens(a.drop_first(), b.drop_first(), t);
    }
}

/// Searching after a push: an existing entry still wins; otherwise only the
/// pushed token is found, at the end.
pub proof fn lemma_bal_index_push(s: Seq<TokenBalanceV>, e: TokenBalanceV)
    ensures
        forall|t: Seq<u8>|
            #[trigger] bal_index(s.push(e), t) == (if bal_index(s, t) >= 0 {
                bal_index(s, t)
            } else if t == e.token {
                s.len() as int
            } else {
                -1int
            }),
    decreases s.len(),
{
    let p = s.push(e);
    if s.len() == 0 {
        assert forall|t: Seq<u8>|
            #[trigger] bal_index(p, t) == (if bal_index(s, t) >= 0 {
                bal_index(s, t)
            } else if t == e.token {
                s.len() as int
            } else {
                -1int
            }) by {
            assert(p[0] == e);
            assert(p.drop_first() =~= Seq::<TokenBalanceV>::empty());
            assert(bal_index(p.drop_first(), t) == -1);
            assert(bal_index(s, t) == -1);
        }
    } else {
        lemma_bal_index_push(s.drop_first(), e);
        assert forall|t: Seq<u8>|
            #[trigger] bal_index(p, t) == (if bal_index(s, t) >= 0 {
                bal_index(s, t)
            } else if t == e.token {
                s.len() as int
            } else {
                -1int
            }) by {
            assert(p.drop_first() =~= s.drop_first().push(e));
            assert(p[0] == s[0]);
            assert(bal_index(s.drop_first().push(e), t) == (if bal_index(s.drop_first(), t) >= 0 {
                bal_index(s.drop_first(), t)
            } else if t == e.token {
                s.drop_first().len() as int
            } else {
                -1int
            }));
        }
    }
}

} // verus!
