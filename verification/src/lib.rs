//! A verified model of a dust-converter settlement contract: it takes a batch
//! of small token balances, prices each through its registered routing pair,
//! settles the total into a single reference token net of a protocol fee and
//! an optional referral rebate, and periodically liquidates the accumulated
//! dust through the same pairs.
use vstd::prelude::*;

pub mod access;
pub mod config;
pub mod math;
pub mod pair_mock;
pub mod proxy;
pub mod referral;
pub mod types;

use crate::access::AccessControl;
use crate::config::{reg_contains, reg_entry, ConfigModule, KnownTokenV};
use crate::math::{mul_div, pct_of};
use crate::proxy::ProxyModule;
use crate::referral::ReferralModule;
use crate::types::{
    bytes_eq, clone_bytes, is_valid_esdt_identifier, payment_views, valid_token_id, Error, Payment,
    PaymentV, MAX_FEE_PERCENTAGE, MAX_PERCENTAGE,
};

verus! {

/// What pricing a payment group comes to: the summed quoted output of the
/// known payments (earliest failure wins), and the unknown payments set
/// aside for refund, in order.
pub open spec fn quote_group<R: ProxyModule>(
    router: &R,
    reg: Seq<KnownTokenV>,
    output_token: Seq<u8>,
    payments: Seq<PaymentV>,
) -> Result<(int, Seq<PaymentV>), Error>
    decreases payments.len(),
{
    if payments.len() == 0 {
        Ok((0, Seq::empty()))
    } else {
        match quote_group(router, reg, output_token, payments.drop_last()) {
            Err(e) => Err(e),
            Ok(acc) => {
                let p = payments.last();
                if !reg_contains(reg, p.token_identifier) {
                    Ok((acc.0, acc.1.push(p)))
                } else {
                    let entry = reg_entry(reg, p.token_identifier);
                    if entry.pair.output_token != output_token {
                        Err(Error::InvalidPayments)
                    } else {
                        match router.amount_out_spec(
                            entry.pair.address,
                            p.token_identifier,
                            p.amount,
                        ) {
                            Err(e) => Err(e),
                            Ok(v) => Ok((acc.0 + v, acc.1)),
                        }
                    }
                }
            },
        }
    }
}

/// A failed prefix decides the whole group.
pub proof fn lemma_quote_group_prefix_err<R: ProxyModule>(
    router: &R,
    reg: Seq<KnownTokenV>,
    output_token: Seq<u8>,
    payments: Seq<PaymentV>,
    m: int,
)
    requires
        0 <= m <= payments.len(),
        quote_group(router, reg, output_token, payments.take(m)) is Err,
    ensures
        quote_group(router, reg, output_token, payments) == quote_group(
            router,
            reg,
            output_token,
            payments.take(m),
        ),
    decreases payments.len() - m,
{
    if m == payments.len() {
        assert(payments.take(m) =~= payments);
    } else {
        assert(payments.take(m + 1).drop_last() =~= payments.take(m));
        lemma_quote_group_prefix_err(router, reg, output_token, payments, m + 1);
    }
}

/// Whether the machine can hold the running total while a group is priced:
/// every prefix's total must fit.
pub open spec fn group_fits<R: ProxyModule>(
    router: &R,
    reg: Seq<KnownTokenV>,
    output_token: Seq<u8>,
    payments: Seq<PaymentV>,
) -> bool {
    forall|m: int|
        0 <= m <= payments.len() ==> (#[trigger] quote_group(
            router,
            reg,
            output_token,
            payments.take(m),
        ) matches Ok(acc) ==> acc.0 <= u128::MAX)
}

/// Every payment for an unknown token appears unmodified in the refund set,
/// in order, and contributes nothing to the total: the total of a priced
/// group equals the total of its known payments alone.
pub proof fn lemma_unknown_payments_refunded<R: ProxyModule>(
    router: &R,
    reg: Seq<KnownTokenV>,
    output_token: Seq<u8>,
    payments: Seq<PaymentV>,
)
    requires
        quote_group(router, reg, output_token, payments) is Ok,
    ensures
        quote_group(router, reg, output_token, payments)->Ok_0.1 == payments.filter(
            |p: PaymentV| !reg_contains(reg, p.token_identifier),
        ),
        quote_group(
            router,
            reg,
            output_token,
            payments.filter(|p: PaymentV| reg_contains(reg, p.token_identifier)),
        ) == Ok::<(int, Seq<PaymentV>), Error>(
            (quote_group(router, reg, output_token, payments)->Ok_0.0, Seq::empty()),
        ),
    decreases payments.len(),
{
    let unknown = |p: PaymentV| !reg_contains(reg, p.token_identifier);
    let known = |p: PaymentV| reg_contains(reg, p.token_identifier);
    if payments.len() == 0 {
        assert(payments.filter(unknown) =~= Seq::<PaymentV>::empty());
        assert(payments.filter(known) =~= Seq::<PaymentV>::empty());
    } else {
        let rest = payments.drop_last();
        let p = payments.last();
        lemma_unknown_payments_refunded(router, reg, output_token, rest);
        reveal_with_fuel(Seq::filter, 2);
        if reg_contains(reg, p.token_identifier) {
            assert(payments.filter(unknown) == rest.filter(unknown));
            assert(payments.filter(known) == rest.filter(known).push(p));
            assert(payments.filter(known).drop_last() =~= rest.filter(known));
        } else {
            assert(payments.filter(unknown) == rest.filter(unknown).push(p));
            assert(payments.filter(known) == rest.filter(known));
        }
    }
}

/// Folding an intermediate-token amount into a payment group: nothing for a
/// zero amount; merged into the first payment when it is already denominated
/// in that token; appended as a fresh payment otherwise.
pub open spec fn merge_usdc(payments: Seq<PaymentV>, usdc: Seq<u8>, amount: int) -> Seq<PaymentV> {
    if amount == 0 {
        payments
    } else if payments.len() == 0 {
        seq![PaymentV { token_identifier: usdc, token_nonce: 0u64, amount: amount as u128 }]
    } else if payments[0].token_identifier != usdc {
        payments.push(PaymentV { token_identifier: usdc, token_nonce: 0u64, amount: amount as u128 })
    } else {
        payments.update(
            0,
            PaymentV {
                token_identifier: usdc,
                token_nonce: 0u64,
                amount: (payments[0].amount + amount) as u128,
            },
        )
    }
}

/// Whether the machine can hold the merge: the first payment's amount plus
/// the folded-in amount must fit.
pub open spec fn merge_fits(payments: Seq<PaymentV>, usdc: Seq<u8>, amount: int) -> bool {
    if amount == 0 || payments.len() == 0 || payments[0].token_identifier != usdc {
        true
    } else {
        payments[0].amount + amount <= u128::MAX
    }
}

/// The summed amount of the known payments denominated in `t`.
pub open spec fn sum_known(reg: Seq<KnownTokenV>, payments: Seq<PaymentV>, t: Seq<u8>) -> int
    decreases payments.len(),
{
    if payments.len() == 0 {
        0
    } else {
        let p = payments.last();
        sum_known(reg, payments.drop_last(), t) + if reg_contains(reg, p.token_identifier)
            && p.token_identifier == t {
            p.amount as int
        } else {
            0
        }
    }
}

/// A prefix never sums to more than the whole, and sums are never negative.
pub proof fn lemma_sum_known_prefix(
    reg: Seq<KnownTokenV>,
    payments: Seq<PaymentV>,
    t: Seq<u8>,
    m: int,
)
    requires
        0 <= m <= payments.len(),
    ensures
        0 <= sum_known(reg, payments.take(m), t) <= sum_known(reg, payments, t),
    decreases payments.len(),
{
    lemma_sum_known_nonneg(reg, payments, t);
    if m == payments.len() {
        assert(payments.take(m) =~= payments);
    } else {
        assert(payments.drop_last() =~= payments.take(payments.len() - 1));
        assert(payments.take(payments.len() - 1).take(m) =~= payments.take(m));
        lemma_sum_known_prefix(reg, payments.take(payments.len() - 1), t, m);
    }
}

/// A sum of payment amounts is never negative.
pub proof fn lemma_sum_known_nonneg(reg: Seq<KnownTokenV>, payments: Seq<PaymentV>, t: Seq<u8>)
    ensures
        sum_known(reg, payments, t) >= 0,
    decreases payments.len(),
{
    if payments.len() > 0 {
        lemma_sum_known_nonneg(reg, payments.drop_last(), t);
    }
}

/// What a conversion call computes, once the groups priced: the gross quoted
/// total, the refund set, the protocol fee, the referral carve-out and the
/// net amount owed to the caller.
pub struct SwapPlan {
    pub total: int,
    pub refunds: Seq<PaymentV>,
    pub fee: int,
    pub cut: int,
    pub net: int,
}

/// The complete conversion pipeline on given state: price the
/// intermediate-route group, fold its proceeds into the direct group, price
/// that, take the fee, apply the slippage and zero-amount checks, and check
/// that the wrapped-token holding (after the incoming dust is credited)
/// covers the payout. Earlier failures win.
pub open spec fn swap_plan<R: ProxyModule>(
    router: &R,
    cfg: ConfigModule,
    referral: ReferralModule,
    payments: Seq<PaymentV>,
    num_wegld: int,
    amount_out_min: u128,
    tag: Option<Seq<u8>>,
) -> Result<SwapPlan, Error> {
    let reg = cfg.reg();
    let usdc = cfg.usdc_token@;
    let wegld = cfg.wrapped_token@;
    match quote_group(router, reg, usdc, payments.skip(num_wegld)) {
        Err(e) => Err(e),
        Ok(usdc_acc) => {
            let merged = merge_usdc(payments.take(num_wegld), usdc, usdc_acc.0);
            match quote_group(router, reg, wegld, merged) {
                Err(e) => Err(e),
                Ok(wegld_acc) => {
                    let total = wegld_acc.0;
                    let fee = pct_of(total, cfg.protocol_fee_percent as int);
                    let net = total - fee;
                    if net < amount_out_min {
                        Err(Error::SlippageExceeded)
                    } else if net == 0 {
                        Err(Error::ZeroAmount)
                    } else if net > cfg.bal(wegld) + sum_known(reg, payments, wegld) {
                        Err(Error::InsufficientBalance)
                    } else {
                        let cut = match tag {
                            Some(t) => pct_of(fee, referral.tag_percent(t) as int),
                            None => 0,
                        };
                        Ok(SwapPlan { total, refunds: wegld_acc.1 + usdc_acc.1, fee, cut, net })
                    }
                },
            }
        },
    }
}

/// Whether the machine can hold every accumulation the conversion performs:
/// the contract's holdings after crediting the incoming dust, the quoted
/// totals, the merged first payment, and the volume, referral-fee and
/// protocol-fee counters.
pub open spec fn swap_fits<R: ProxyModule>(
    router: &R,
    cfg: ConfigModule,
    referral: ReferralModule,
    payments: Seq<PaymentV>,
    num_wegld: int,
    tag: Option<Seq<u8>>,
) -> bool {
    let reg = cfg.reg();
    let usdc = cfg.usdc_token@;
    let wegld = cfg.wrapped_token@;
    &&& (forall|t: Seq<u8>| cfg.bal(t) + sum_known(reg, payments, t) <= u128::MAX)
    &&& group_fits(router, reg, usdc, payments.skip(num_wegld))
    &&& match quote_group(router, reg, usdc, payments.skip(num_wegld)) {
        Err(_) => true,
        Ok(usdc_acc) => {
            &&& merge_fits(payments.take(num_wegld), usdc, usdc_acc.0)
            &&& group_fits(router, reg, wegld, merge_usdc(payments.take(num_wegld), usdc, usdc_acc.0))
            &&& match quote_group(
                router,
                reg,
                wegld,
                merge_usdc(payments.take(num_wegld), usdc, usdc_acc.0),
            ) {
                Err(_) => true,
                Ok(wegld_acc) => {
                    &&& wegld_acc.0 <= u128::MAX
                    &&& (tag matches Some(t) ==> referral.tag_volume(t) + wegld_acc.0 <= u128::MAX
                        && referral.tag_fees(t) + wegld_acc.0 <= u128::MAX)
                    &&& cfg.collected_fee_amount + wegld_acc.0 <= u128::MAX
                },
            }
        },
    }
}

/// What the liquidation sweep does with an operator-supplied token list,
/// processed in order against the contract's holdings: unknown tokens, empty
/// holdings, failed quotes, quotes at or below the token's threshold and
/// failed swaps are skipped; everything else is sold in full for the wrapped
/// token at a slippage-bounded minimum. Returns the holdings afterwards, the
/// router afterwards, the executed swaps, and whether every wrapped-token
/// credit fit the machine.
pub open spec fn sell_model<R: ProxyModule>(
    router: R,
    reg: Seq<KnownTokenV>,
    wegld: Seq<u8>,
    slippage: u64,
    bals: Map<Seq<u8>, u128>,
    tokens: Seq<Seq<u8>>,
) -> (Map<Seq<u8>, u128>, R, Seq<ExecutedSwapV>, bool)
    decreases tokens.len(),
{
    if tokens.len() == 0 {
        (bals, router, Seq::empty(), true)
    } else {
        let acc = sell_model(router, reg, wegld, slippage, bals, tokens.drop_last());
        let t = tokens.last();
        if !reg_contains(reg, t) {
            acc
        } else {
            let entry = reg_entry(reg, t);
            let balance = acc.0[t];
            if balance == 0 {
                acc
            } else {
                match acc.1.amount_out_spec(entry.pair.address, t, balance) {
                    Err(_) => acc,
                    Ok(value) => {
                        if value <= entry.threshold {
                            acc
                        } else {
                            let min_out = (value - pct_of(value as int, slippage as int)) as u128;
                            match acc.1.swap_spec(entry.pair.address, t, balance, wegld, min_out) {
                                Err(_) => acc,
                                Ok(ps) => {
                                    let drained = acc.0.insert(t, 0);
                                    let fits = acc.3 && drained[wegld] + ps.0.amount <= u128::MAX;
                                    (
                                        drained.insert(
                                            wegld,
                                            (drained[wegld] + ps.0.amount) as u128,
                                        ),
                                        ps.1,
                                        acc.2.push(
                                            ExecutedSwapV {
                                                token_in: t,
                                                amount_in: balance,
                                                quoted_out: value,
                                                received: ps.0,
                                            },
                                        ),
                                        fits,
                                    )
                                },
                            }
                        }
                    },
                }
            }
        }
    }
}

/// When the whole sweep fits the machine, so does every prefix.
pub proof fn lemma_sell_prefix_fits<R: ProxyModule>(
    router: R,
    reg: Seq<KnownTokenV>,
    wegld: Seq<u8>,
    slippage: u64,
    bals: Map<Seq<u8>, u128>,
    tokens: Seq<Seq<u8>>,
    m: int,
)
    requires
        0 <= m <= tokens.len(),
        sell_model(router, reg, wegld, slippage, bals, tokens).3,
    ensures
        sell_model(router, reg, wegld, slippage, bals, tokens.take(m)).3,
    decreases tokens.len(),
{
    if m == tokens.len() {
        assert(tokens.take(m) =~= tokens);
    } else {
        assert(tokens.drop_last() =~= tokens.take(tokens.len() - 1));
        assert(tokens.take(tokens.len() - 1).take(m) =~= tokens.take(m));
        lemma_sell_prefix_fits(router, reg, wegld, slippage, bals, tokens.take(tokens.len() - 1), m);
    }
}

/// The liquidation sweep never touches an unknown token and never swaps one
/// whose quoted output is at or below its configured threshold.
pub proof fn lemma_sweep_respects_thresholds<R: ProxyModule>(
    router: R,
    reg: Seq<KnownTokenV>,
    wegld: Seq<u8>,
    slippage: u64,
    bals: Map<Seq<u8>, u128>,
    tokens: Seq<Seq<u8>>,
)
    ensures
        forall|i: int|
            0 <= i < sell_model(router, reg, wegld, slippage, bals, tokens).2.len() ==> {
                let s = #[trigger] sell_model(router, reg, wegld, slippage, bals, tokens).2[i];
                &&& reg_contains(reg, s.token_in)
                &&& s.quoted_out > reg_entry(reg, s.token_in).threshold
            },
    decreases tokens.len(),
{
    if tokens.len() > 0 {
        lemma_sweep_respects_thresholds(router, reg, wegld, slippage, bals, tokens.drop_last());
        let acc = sell_model(router, reg, wegld, slippage, bals, tokens.drop_last());
        let m = sell_model(router, reg, wegld, slippage, bals, tokens);
        assert forall|i: int|
            0 <= i < m.2.len() implies {
            let s = #[trigger] m.2[i];
            &&& reg_contains(reg, s.token_in)
            &&& s.quoted_out > reg_entry(reg, s.token_in).threshold
        } by {
            if i < acc.2.len() {
                assert(m.2[i] == acc.2[i]);
            }
        }
    }
}

/// The value of an optional referral tag.
pub open spec fn tag_view(tag: Option<Vec<u8>>) -> Option<Seq<u8>> {
    match tag {
        Some(t) => Some(t@),
        None => None,
    }
}

/// What a successful conversion hands back: the settled payout, and the
/// unknown-token payments returned untouched, all to the caller.
#[derive(Debug)]
pub struct SwapOutcome {
    pub to: u64,
    pub payout: Payment,
    pub refunds: Vec<Payment>,
}

/// One swap the liquidation sweep executed: the dust sold, the price it was
/// quoted, and the wrapped-token payment received.
#[derive(Debug)]
pub struct ExecutedSwap {
    pub token_in: Vec<u8>,
    pub amount_in: u128,
    pub quoted_out: u128,
    pub received: Payment,
}

/// The mathematical value of an [`ExecutedSwap`].
pub struct ExecutedSwapV {
    pub token_in: Seq<u8>,
    pub amount_in: u128,
    pub quoted_out: u128,
    pub received: PaymentV,
}

impl View for ExecutedSwap {
    type V = ExecutedSwapV;

    open spec fn view(&self) -> ExecutedSwapV {
        ExecutedSwapV {
            token_in: self.token_in@,
            amount_in: self.amount_in,
            quoted_out: self.quoted_out,
            received: self.received@,
        }
    }
}

/// The values of a sequence of executed swaps.
pub open spec fn swap_views(s: Seq<ExecutedSwap>) -> Seq<ExecutedSwapV> {
    s.map_values(|e: ExecutedSwap| e@)
}

/// The settlement contract: global configuration and treasury, the referral
/// engine, and the permission/pause gate.
pub struct DustConverter {
    pub config: ConfigModule,
    pub referral: ReferralModule,
    pub access: AccessControl,
}

impl DustConverter {
    /// Structural soundness of the whole contract.
    pub open spec fn wf(&self) -> bool {
        &&& self.config.wf()
        &&& self.referral.wf()
    }

    /// Deploys the contract: validates the fee, the slippage and both
    /// reference tokens, starts paused, and grants the deployer every
    /// capability.
    pub fn init(
        protocol_fee_percent: u64,
        slippage_percent: u64,
        wegld_token: Vec<u8>,
        usdc_token: Vec<u8>,
        caller: u64,
    ) -> (r: Result<DustConverter, Error>)
        ensures
            protocol_fee_percent >= MAX_FEE_PERCENTAGE ==> r == Err::<DustConverter, Error>(
                Error::InvalidProtocolFee,
            ),
            protocol_fee_percent < MAX_FEE_PERCENTAGE && slippage_percent >= MAX_PERCENTAGE ==> r
                == Err::<DustConverter, Error>(Error::InvalidSlippagePercent),
            protocol_fee_percent < MAX_FEE_PERCENTAGE && slippage_percent < MAX_PERCENTAGE && !(
            valid_token_id(wegld_token@) && valid_token_id(usdc_token@)) ==> r == Err::<
                DustConverter,
                Error,
            >(Error::InvalidEsdtId),
            protocol_fee_percent < MAX_FEE_PERCENTAGE && slippage_percent < MAX_PERCENTAGE
                && valid_token_id(wegld_token@) && valid_token_id(usdc_token@) ==> (r matches Ok(c)
                && {
                &&& c.wf()
                &&& c.config.protocol_fee_percent == protocol_fee_percent
                &&& c.config.slippage_percent == slippage_percent
                &&& c.config.wrapped_token@ == wegld_token@
                &&& c.config.usdc_token@ == usdc_token@
                &&& c.config.collected_fee_amount == 0
                &&& c.config.reg() == Seq::<KnownTokenV>::empty()
                &&& forall|t: Seq<u8>| c.config.bal(t) == 0
                &&& c.referral.tagv() == Seq::<crate::referral::TagRecordV>::empty()
                &&& c.referral.userv() == Seq::<crate::referral::UserTagV>::empty()
                &&& c.referral.tierv() == Seq::<crate::referral::TierDetailsV>::empty()
                &&& !c.access.is_active()
                &&& c.access.has_owner(caller) && c.access.has_owner_or_admin(caller)
                    && c.access.has_pause(caller)
            }),
    {
        if protocol_fee_percent >= MAX_FEE_PERCENTAGE {
            return Err(Error::InvalidProtocolFee);
        }
        if slippage_percent >= MAX_PERCENTAGE {
            return Err(Error::InvalidSlippagePercent);
        }
        if !is_valid_esdt_identifier(&wegld_token) || !is_valid_esdt_identifier(&usdc_token) {
            return Err(Error::InvalidEsdtId);
        }
        let config = ConfigModule {
            protocol_fee_percent,
            slippage_percent,
            wrapped_token: wegld_token,
            usdc_token,
            collected_fee_amount: 0,
            known_tokens: Vec::new(),
            balances: Vec::new(),
        };
        let referral = ReferralModule::new();
        let access = AccessControl::new(caller);
        let c = DustConverter { config, referral, access };
        proof {
            assert(c.config.reg() =~= Seq::<KnownTokenV>::empty());
            assert(crate::config::bal_views(c.config.balances@) =~= Seq::<
                crate::config::TokenBalanceV,
            >::empty());
            assert forall|t: Seq<u8>| c.config.bal(t) == 0 by {
                assert(crate::config::bal_index(
                    crate::config::bal_views(c.config.balances@),
                    t,
                ) == -1);
            }
            assert((1u32 | 2u32 | 4u32) & 1u32 == 1u32) by (bit_vector);
            assert((1u32 | 2u32 | 4u32) & (1u32 | 2u32) != 0u32) by (bit_vector);
            assert((1u32 | 2u32 | 4u32) & 4u32 == 4u32) by (bit_vector);
        }
        Ok(c)
    }

    /// Prices one payment group against `output_token`: unknown tokens go to
    /// the refund list, known ones must be routed to `output_token` and are
    /// quoted through their pair; the quoted outputs are summed.
    pub fn compute_swap_amount<R: ProxyModule>(
        &self,
        router: &R,
        output_token: &Vec<u8>,
        payments: &Vec<Payment>,
    ) -> (r: Result<(u128, Vec<Payment>), Error>)
        requires
            group_fits(router, self.config.reg(), output_token@, payment_views(payments@)),
        ensures
            match quote_group(
                router,
                self.config.reg(),
                output_token@,
                payment_views(payments@),
            ) {
                Ok(acc) => r matches Ok(tr) && tr.0 == acc.0 && payment_views(tr.1@) == acc.1,
                Err(e) => r == Err::<(u128, Vec<Payment>), Error>(e),
            },
    {
        let ghost pviews = payment_views(payments@);
        let ghost reg = self.config.reg();
        let mut total: u128 = 0;
        let mut refunds: Vec<Payment> = Vec::new();
        let mut i: usize = 0;
        proof {
            assert(pviews.take(0) =~= Seq::<PaymentV>::empty());
            assert(payment_views(refunds@) =~= Seq::<PaymentV>::empty());
        }
        while i < payments.len()
            invariant
                i <= payments@.len(),
                pviews == payment_views(payments@),
                reg == self.config.reg(),
                group_fits(router, reg, output_token@, pviews),
                quote_group(router, reg, output_token@, pviews.take(i as int)) == Ok::<
                    (int, Seq<PaymentV>),
                    Error,
                >((total as int, payment_views(refunds@))),
            decreases payments@.len() - i,
        {
            proof {
                assert(pviews.take(i + 1).drop_last() =~= pviews.take(i as int));
                assert(pviews.take(i + 1).last() == payments@[i as int]@);
            }
            let p = &payments[i];
            match self.config.find_known(&p.token_identifier) {
                None => {
                    let ghost prevr = payment_views(refunds@);
                    refunds.push(p.duplicate());
                    proof {
                        assert(payment_views(refunds@) =~= prevr.push(payments@[i as int]@));
                    }
                },
                Some(ki) => {
                    let entry = &self.config.known_tokens[ki];
                    proof {
                        assert(reg[ki as int] == self.config.known_tokens@[ki as int]@);
                        assert(reg_entry(reg, payments@[i as int]@.token_identifier) == reg[
                            ki as int]);
                    }
                    if !bytes_eq(&entry.pair.output_token, output_token) {
                        proof {
                            lemma_quote_group_prefix_err(router, reg, output_token@, pviews, i + 1);
                        }
                        return Err(Error::InvalidPayments);
                    }
                    match router.get_amount_out(entry.pair.address, &p.token_identifier, p.amount) {
                        Err(e) => {
                            proof {
                                lemma_quote_group_prefix_err(
                                    router,
                                    reg,
                                    output_token@,
                                    pviews,
                                    i + 1,
                                );
                            }
                            return Err(e);
                        },
                        Ok(v) => {
                            proof {
                                assert(quote_group(router, reg, output_token@, pviews.take(i + 1))
                                    == Ok::<(int, Seq<PaymentV>), Error>(
                                    (total as int + v as int, payment_views(refunds@)),
                                ));
                            }
                            total = total + v;
                        },
                    }
                },
            }
            i += 1;
        }
        proof {
            assert(pviews.take(payments@.len() as int) =~= pviews);
        }
        Ok((total, refunds))
    }

    /// Folds intermediate-token proceeds into the direct-route group, merging
    /// with the first payment when it is already denominated in that token.
    pub fn add_usdc_to_first_payment(&self, payments: &mut Vec<Payment>, amount: u128)
        requires
            merge_fits(payment_views(old(payments)@), self.config.usdc_token@, amount as int),
        ensures
            payment_views(final(payments)@) == merge_usdc(
                payment_views(old(payments)@),
                self.config.usdc_token@,
                amount as int,
            ),
    {
        if amount == 0 {
            return ;
        }
        let usdc_token = clone_bytes(&self.config.usdc_token);
        if payments.len() == 0 {
            payments.push(Payment::new(usdc_token, 0, amount));
            proof {
                assert(payment_views(payments@) =~= merge_usdc(
                    payment_views(old(payments)@),
                    self.config.usdc_token@,
                    amount as int,
                ));
            }
            return ;
        }
        if !bytes_eq(&payments[0].token_identifier, &usdc_token) {
            let ghost prevp = payment_views(payments@);
            payments.push(Payment::new(usdc_token, 0, amount));
            proof {
                assert(payment_views(payments@) =~= merge_usdc(
                    prevp,
                    self.config.usdc_token@,
                    amount as int,
                ));
            }
            return ;
        }
        let ghost prevp = payment_views(payments@);
        let first_amount = payments[0].amount;
        payments[0] = Payment::new(usdc_token, 0, first_amount + amount);
        proof {
            assert(payment_views(payments@) =~= merge_usdc(
                prevp,
                self.config.usdc_token@,
                amount as int,
            ));
        }
    }

    /// The summed amount of the known payments denominated in `token`.
    fn sum_known_amounts(&self, payments: &Vec<Payment>, token: &Vec<u8>) -> (r: u128)
        requires
            sum_known(self.config.reg(), payment_views(payments@), token@) <= u128::MAX,
        ensures
            r == sum_known(self.config.reg(), payment_views(payments@), token@),
    {
        let ghost pviews = payment_views(payments@);
        let ghost reg = self.config.reg();
        let mut r: u128 = 0;
        let mut k: usize = 0;
        proof {
            assert(pviews.take(0) =~= Seq::<PaymentV>::empty());
        }
        while k < payments.len()
            invariant
                k <= payments@.len(),
                pviews == payment_views(payments@),
                reg == self.config.reg(),
                sum_known(reg, pviews, token@) <= u128::MAX,
                r == sum_known(reg, pviews.take(k as int), token@),
            decreases payments@.len() - k,
        {
            proof {
                assert(pviews.take(k + 1).drop_last() =~= pviews.take(k as int));
                assert(pviews.take(k + 1).last() == payments@[k as int]@);
                lemma_sum_known_prefix(reg, pviews, token@, k + 1);
            }
            let p = &payments[k];
            if self.config.is_known_token(&p.token_identifier) && bytes_eq(
                &p.token_identifier,
                token,
            ) {
                r = r + p.amount;
            }
            k += 1;
        }
        proof {
            assert(pviews.take(payments@.len() as int) =~= pviews);
        }
        r
    }

    /// Converts an attached batch of dust payments into the wrapped token:
    /// the first `num_wegld` payments are routed directly, the rest through
    /// the intermediate token; unknown tokens are refunded untouched; the
    /// protocol fee is taken from the quoted total and the optional referral
    /// tag earns its share of it; the net amount is paid from the contract's
    /// wrapped-token reserve. Any failure leaves the contract unchanged.
    pub fn swap_dust_tokens<R: ProxyModule>(
        &mut self,
        router: &R,
        caller: u64,
        payments: &Vec<Payment>,
        num_wegld: usize,
        amount_out_min: u128,
        tag: Option<Vec<u8>>,
    ) -> (r: Result<SwapOutcome, Error>)
        requires
            old(self).wf(),
            swap_fits(
                router,
                old(self).config,
                old(self).referral,
                payment_views(payments@),
                num_wegld as int,
                tag_view(tag),
            ),
        ensures
            final(self).wf(),
            r is Err ==> *final(self) == *old(self),
            !old(self).access.is_active() ==> r == Err::<SwapOutcome, Error>(Error::NotActive),
            old(self).access.is_active() && num_wegld > payments@.len() ==> r == Err::<
                SwapOutcome,
                Error,
            >(Error::InvalidNumWegld),
            old(self).access.is_active() && num_wegld <= payments@.len() ==> match swap_plan(
                router,
                old(self).config,
                old(self).referral,
                payment_views(payments@),
                num_wegld as int,
                amount_out_min,
                tag_view(tag),
            ) {
                Err(e) => r == Err::<SwapOutcome, Error>(e),
                Ok(plan) => (r matches Ok(out) && {
                    &&& out.to == caller
                    &&& out.payout@.token_identifier == old(self).config.wrapped_token@
                    &&& out.payout@.amount == plan.net
                    &&& out.payout@.token_nonce == 0
                    &&& payment_views(out.refunds@) == plan.refunds
                    &&& final(self).access == old(self).access
                    &&& final(self).config.collected_fee_amount == old(
                        self,
                    ).config.collected_fee_amount + plan.fee - plan.cut
                    &&& final(self).config.protocol_fee_percent == old(
                        self,
                    ).config.protocol_fee_percent
                    &&& final(self).config.slippage_percent == old(self).config.slippage_percent
                    &&& final(self).config.wrapped_token@ == old(self).config.wrapped_token@
                    &&& final(self).config.usdc_token@ == old(self).config.usdc_token@
                    &&& final(self).config.reg() == old(self).config.reg()
                    &&& final(self).config.bal(old(self).config.wrapped_token@) == old(
                        self,
                    ).config.bal(old(self).config.wrapped_token@) + sum_known(
                        old(self).config.reg(),
                        payment_views(payments@),
                        old(self).config.wrapped_token@,
                    ) - plan.net
                    &&& forall|t: Seq<u8>|
                        t != old(self).config.wrapped_token@ ==> final(self).config.bal(t) == old(
                            self,
                        ).config.bal(t) + sum_known(
                            old(self).config.reg(),
                            payment_views(payments@),
                            t,
                        )
                    &&& match tag_view(tag) {
                        None => final(self).referral == old(self).referral,
                        Some(tv) => {
                            &&& final(self).referral.tag_volume(tv) == old(
                                self,
                            ).referral.tag_volume(tv) + plan.total
                            &&& final(self).referral.tag_fees(tv) == old(self).referral.tag_fees(tv)
                                + plan.cut
                            &&& final(self).referral.tag_percent(tv) == old(
                                self,
                            ).referral.tag_percent(tv)
                            &&& forall|t2: Seq<u8>|
                                t2 != tv ==> crate::referral::tag_record(
                                    final(self).referral.tagv(),
                                    t2,
                                ) == crate::referral::tag_record(old(self).referral.tagv(), t2)
                            &&& final(self).referral.userv() == old(self).referral.userv()
                            &&& final(self).referral.tierv() == old(self).referral.tierv()
                        },
                    }
                }),
            },
    {
        if let Err(e) = self.access.require_state_active() {
            return Err(e);
        }
        let num_payments = payments.len();
        if num_wegld > num_payments {
            return Err(Error::InvalidNumWegld);
        }
        let ghost pviews = payment_views(payments@);
        let ghost reg = old(self).config.reg();
        let ghost usdc_v = old(self).config.usdc_token@;
        let ghost wegld_v = old(self).config.wrapped_token@;

        // split the batch into the direct-route and intermediate-route groups
        let mut wegld_swaps: Vec<Payment> = Vec::new();
        let mut k: usize = 0;
        proof {
            assert(payment_views(wegld_swaps@) =~= pviews.subrange(0, 0));
        }
        while k < num_wegld
            invariant
                k <= num_wegld <= payments@.len(),
                pviews == payment_views(payments@),
                payment_views(wegld_swaps@) == pviews.subrange(0, k as int),
                *self == *old(self),
            decreases num_wegld - k,
        {
            let ghost prevg = payment_views(wegld_swaps@);
            wegld_swaps.push(payments[k].duplicate());
            proof {
                assert(payment_views(wegld_swaps@) =~= prevg.push(payments@[k as int]@));
                assert(prevg.push(pviews[k as int]) =~= pviews.subrange(0, k + 1));
            }
            k += 1;
        }
        let mut usdc_swaps: Vec<Payment> = Vec::new();
        let mut k2: usize = num_wegld;
        proof {
            assert(payment_views(usdc_swaps@) =~= pviews.subrange(
                num_wegld as int,
                num_wegld as int,
            ));
        }
        while k2 < num_payments
            invariant
                num_wegld <= k2 <= payments@.len(),
                num_payments == payments@.len(),
                pviews == payment_views(payments@),
                payment_views(usdc_swaps@) == pviews.subrange(num_wegld as int, k2 as int),
                *self == *old(self),
            decreases num_payments - k2,
        {
            let ghost prevg = payment_views(usdc_swaps@);
            usdc_swaps.push(payments[k2].duplicate());
            proof {
                assert(payment_views(usdc_swaps@) =~= prevg.push(payments@[k2 as int]@));
                assert(prevg.push(pviews[k2 as int]) =~= pviews.subrange(num_wegld as int, k2 + 1));
            }
            k2 += 1;
        }
        proof {
            assert(pviews.subrange(0, num_wegld as int) =~= pviews.take(num_wegld as int));
            assert(pviews.subrange(num_wegld as int, payments@.len() as int) =~= pviews.skip(
                num_wegld as int,
            ));
        }

        // price the intermediate-route group and fold its proceeds in
        let usdc_token = clone_bytes(&self.config.usdc_token);
        let (usdc_amount, usdc_refund) = match self.compute_swap_amount(
            router,
            &usdc_token,
            &usdc_swaps,
        ) {
            Ok(x) => x,
            Err(e) => {
                return Err(e);
            },
        };
        self.add_usdc_to_first_payment(&mut wegld_swaps, usdc_amount);

        // price the (possibly augmented) direct-route group
        let wrapped_egld = clone_bytes(&self.config.wrapped_token);
        let (total_amount, wegld_refund) = match self.compute_swap_amount(
            router,
            &wrapped_egld,
            &wegld_swaps,
        ) {
            Ok(x) => x,
            Err(e) => {
                return Err(e);
            },
        };

        let fee_amount_gross = self.get_fee_from_input(total_amount);
        let amount_after_fees = total_amount - fee_amount_gross;
        if amount_after_fees < amount_out_min {
            return Err(Error::SlippageExceeded);
        }
        if amount_after_fees == 0 {
            return Err(Error::ZeroAmount);
        }

        // the payout must be covered once the incoming dust is credited
        proof {
            lemma_sum_known_nonneg(reg, pviews, wegld_v);
        }
        let wsum = self.sum_known_amounts(payments, &wrapped_egld);
        let avail = self.config.balance_of(&wrapped_egld) + wsum;
        if amount_after_fees > avail {
            return Err(Error::InsufficientBalance);
        }

        // all checks passed: commit
        let mut fee_amount = fee_amount_gross;
        if let Some(tag_name) = &tag {
            self.referral.add_volume(tag_name, total_amount);
            fee_amount = self.referral.subtract_referral_fee_and_update_collected_fees(
                fee_amount_gross,
                tag_name,
            );
        }
        let ghost referral_after = self.referral;

        // take the incoming dust into the contract's holdings
        let mut k3: usize = 0;
        proof {
            assert(pviews.take(0) =~= Seq::<PaymentV>::empty());
        }
        while k3 < num_payments
            invariant
                k3 <= payments@.len(),
                num_payments == payments@.len(),
                pviews == payment_views(payments@),
                reg == self.config.reg(),
                old(self).config.wf(),
                self.config.wf(),
                forall|t: Seq<u8>|
                    old(self).config.bal(t) + sum_known(reg, pviews, t) <= u128::MAX,
                forall|t: Seq<u8>|
                    self.config.bal(t) == old(self).config.bal(t) + sum_known(
                        reg,
                        pviews.take(k3 as int),
                        t,
                    ),
                self.config == (ConfigModule { balances: self.config.balances, ..old(self).config }),
                self.referral == referral_after,
                self.access == old(self).access,
            decreases num_payments - k3,
        {
            proof {
                assert(pviews.take(k3 + 1).drop_last() =~= pviews.take(k3 as int));
                assert(pviews.take(k3 + 1).last() == payments@[k3 as int]@);
            }
            let p = &payments[k3];
            if self.config.is_known_token(&p.token_identifier) {
                proof {
                    lemma_sum_known_prefix(reg, pviews, p@.token_identifier, k3 + 1);
                }
                self.config.credit(&p.token_identifier, p.amount);
            }
            k3 += 1;
        }
        proof {
            assert(pviews.take(payments@.len() as int) =~= pviews);
        }

        // pay the caller and book the remaining fee
        let ghost cfg_credited = self.config;
        self.config.debit(&wrapped_egld, amount_after_fees);
        let ghost cfg_debited = self.config;
        let collected = self.config.collected_fee_amount;
        self.config.collected_fee_amount = collected + fee_amount;
        proof {
            assert forall|t: Seq<u8>| t != wegld_v implies self.config.bal(t) == old(
                self,
            ).config.bal(t) + sum_known(reg, pviews, t) by {
                assert(self.config.bal(t) == cfg_debited.bal(t));
                assert(cfg_debited.bal(t) == cfg_credited.bal(t));
                assert(cfg_credited.bal(t) == old(self).config.bal(t) + sum_known(reg, pviews, t));
            }
            assert(self.config.bal(wegld_v) == cfg_debited.bal(wegld_v));
        }

        let mut refunds = wegld_refund;
        let mut usdc_refund_in = usdc_refund;
        let ghost refunds_before = payment_views(refunds@);
        let ghost usdc_refund_views = payment_views(usdc_refund_in@);
        refunds.append(&mut usdc_refund_in);
        proof {
            assert(payment_views(refunds@) =~= refunds_before + usdc_refund_views);
            let planr = swap_plan(
                router,
                old(self).config,
                old(self).referral,
                pviews,
                num_wegld as int,
                amount_out_min,
                tag_view(tag),
            );
            assert(planr matches Ok(plan) && plan.total == total_amount as int && plan.fee
                == fee_amount_gross as int && plan.net == amount_after_fees as int && plan.refunds
                == payment_views(refunds@));
        }
        Ok(
            SwapOutcome {
                to: caller,
                payout: Payment::new(clone_bytes(&wrapped_egld), 0, amount_after_fees),
                refunds,
            },
        )
    }

    /// Sweeps an operator-supplied list of tokens: each known token whose
    /// whole holding is quoted strictly above its threshold is sold in full
    /// for the wrapped token at a slippage-bounded minimum; every other
    /// token, and any pair failure, is skipped. Returns the executed swaps.
    pub fn sell_dust_tokens<R: ProxyModule>(&mut self, router: &mut R, tokens: &Vec<Vec<u8>>) -> (r:
        Vec<ExecutedSwap>)
        requires
            old(self).wf(),
            sell_model(
                *old(router),
                old(self).config.reg(),
                old(self).config.wrapped_token@,
                old(self).config.slippage_percent,
                Map::new(|t: Seq<u8>| true, |t: Seq<u8>| old(self).config.bal(t)),
                crate::config::byte_views(tokens@),
            ).3,
        ensures
            final(self).wf(),
            ({
                let m = sell_model(
                    *old(router),
                    old(self).config.reg(),
                    old(self).config.wrapped_token@,
                    old(self).config.slippage_percent,
                    Map::new(|t: Seq<u8>| true, |t: Seq<u8>| old(self).config.bal(t)),
                    crate::config::byte_views(tokens@),
                );
                &&& forall|t: Seq<u8>| final(self).config.bal(t) == m.0[t]
                &&& *final(router) == m.1
                &&& swap_views(r@) == m.2
                &&& final(self).config == (ConfigModule {
                    balances: final(self).config.balances,
                    ..old(self).config
                })
                &&& final(self).referral == old(self).referral
                &&& final(self).access == old(self).access
            }),
    {
        let ghost reg = old(self).config.reg();
        let ghost wegld_v = old(self).config.wrapped_token@;
        let ghost slippage = old(self).config.slippage_percent;
        let ghost bal0 = Map::new(|t: Seq<u8>| true, |t: Seq<u8>| old(self).config.bal(t));
        let ghost all_tokens = crate::config::byte_views(tokens@);
        let wrapped_egld = clone_bytes(&self.config.wrapped_token);
        let mut swaps: Vec<ExecutedSwap> = Vec::new();
        let mut k: usize = 0;
        proof {
            assert(all_tokens.take(0) =~= Seq::<Seq<u8>>::empty());
            assert(swap_views(swaps@) =~= Seq::<ExecutedSwapV>::empty());
            assert forall|t: Seq<u8>|
                self.config.bal(t) == sell_model(
                    *router,
                    reg,
                    wegld_v,
                    slippage,
                    bal0,
                    all_tokens.take(0),
                ).0[t] by {}
        }
        while k < tokens.len()
            invariant
                k <= tokens@.len(),
                all_tokens == crate::config::byte_views(tokens@),
                old(self).wf(),
                self.config.wf(),
                reg == self.config.reg(),
                wegld_v == self.config.wrapped_token@,
                wegld_v == wrapped_egld@,
                slippage == self.config.slippage_percent,
                sell_model(*old(router), reg, wegld_v, slippage, bal0, all_tokens).3,
                ({
                    let m = sell_model(
                        *old(router),
                        reg,
                        wegld_v,
                        slippage,
                        bal0,
                        all_tokens.take(k as int),
                    );
                    &&& forall|t: Seq<u8>| self.config.bal(t) == m.0[t]
                    &&& *router == m.1
                    &&& swap_views(swaps@) == m.2
                }),
                self.config == (ConfigModule {
                    balances: self.config.balances,
                    ..old(self).config
                }),
                self.referral == old(self).referral,
                self.access == old(self).access,
            decreases tokens@.len() - k,
        {
            proof {
                assert(all_tokens.take(k + 1).drop_last() =~= all_tokens.take(k as int));
                assert(all_tokens.take(k + 1).last() == tokens@[k as int]@);
                lemma_sell_prefix_fits(
                    *old(router),
                    reg,
                    wegld_v,
                    slippage,
                    bal0,
                    all_tokens,
                    k + 1,
                );
            }
            let token = &tokens[k];
            if let Some(ti) = self.config.find_known(token) {
                proof {
                    crate::config::lemma_reg_index(reg, token@);
                    assert(reg[ti as int] == self.config.known_tokens@[ti as int]@);
                    assert(reg_entry(reg, token@) == reg[ti as int]);
                }
                let pair_address = self.config.known_tokens[ti].pair.address;
                let threshold = self.config.known_tokens[ti].threshold;
                let balance = self.config.balance_of(token);
                if balance != 0 {
                    match router.get_amount_out(pair_address, token, balance) {
                        Err(_) => {},
                        Ok(value) => {
                            if value > threshold {
                                let amount_out_min = self.get_amount_out_min(value);
                                let token_in = clone_bytes(token);
                                match router.swap_tokens_fixed_input(
                                    pair_address,
                                    token_in,
                                    balance,
                                    &wrapped_egld,
                                    amount_out_min,
                                ) {
                                    Err(_) => {},
                                    Ok(received) => {
                                        self.config.debit(token, balance);
                                        self.config.credit(&wrapped_egld, received.amount);
                                        let ghost prevs = swap_views(swaps@);
                                        let record = ExecutedSwap {
                                            token_in: clone_bytes(token),
                                            amount_in: balance,
                                            quoted_out: value,
                                            received,
                                        };
                                        let ghost recordv = record@;
                                        swaps.push(record);
                                        proof {
                                            assert(swap_views(swaps@) =~= prevs.push(recordv));
                                            let m = sell_model(
                                                *old(router),
                                                reg,
                                                wegld_v,
                                                slippage,
                                                bal0,
                                                all_tokens.take(k + 1),
                                            );
                                            assert forall|t: Seq<u8>|
                                                self.config.bal(t) == m.0[t] by {}
                                        }
                                    },
                                }
                            }
                        },
                    }
                }
            }
            k += 1;
        }
        proof {
            assert(all_tokens.take(tokens@.len() as int) =~= all_tokens);
        }
        swaps
    }

    /// The protocol fee taken from a gross converted amount.
    pub fn get_fee_from_input(&self, amount_in: u128) -> (r: u128)
        requires
            self.config.protocol_fee_percent < MAX_PERCENTAGE,
        ensures
            r == pct_of(amount_in as int, self.config.protocol_fee_percent as int),
            r <= amount_in,
    {
        mul_div(amount_in, self.config.protocol_fee_percent)
    }

    /// The least acceptable output of a sweep swap: the quoted output less
    /// the slippage allowance.
    pub fn get_amount_out_min(&self, amount_out: u128) -> (r: u128)
        requires
            self.config.slippage_percent < MAX_PERCENTAGE,
        ensures
            r == amount_out - pct_of(amount_out as int, self.config.slippage_percent as int),
    {
        let slippage_amount = mul_div(amount_out, self.config.slippage_percent);
        amount_out - slippage_amount
    }

    /// The most a fixed-output swap may spend: the quoted input plus the
    /// slippage allowance.
    pub fn get_amount_in_max(&self, amount_in: u128) -> (r: u128)
        requires
            self.config.slippage_percent < MAX_PERCENTAGE,
            amount_in <= u128::MAX / 2,
        ensures
            r == amount_in + pct_of(amount_in as int, self.config.slippage_percent as int),
    {
        let slippage_amount = mul_div(amount_in, self.config.slippage_percent);
        amount_in + slippage_amount
    }
}

} // verus!
