//! The contract's view of external routing pairs. `PairProxy` is the
//! interface one pair exposes; `ProxyModule` is the router the conversion
//! logic calls, addressing a pair by its contract address. Both give every
//! outcome a name (`quote_spec`, `swap_spec`), so a caller's contract can say
//! exactly what a conversion returns in terms of what the pairs quoted.
use vstd::prelude::*;

use crate::types::{Error, Payment, PaymentV};

verus! {

/// One external pair contract: a read-only quote and a fixed-input swap.
pub trait PairProxy: Sized {
    /// What the pair quotes for a fixed input, or why it cannot price it.
    spec fn quote_spec(&self, token_in: Seq<u8>, amount_in: u128) -> Result<u128, Error>;

    /// The payment a fixed-input swap returns and the pair's state afterwards,
    /// or why the swap fails.
    spec fn pair_swap_spec(
        &self,
        payment_in: PaymentV,
        token_out: Seq<u8>,
        amount_out_min: u128,
    ) -> Result<(PaymentV, Self), Error>;

    /// Prices `amount_in` of `token_in`; a zero amount is always rejected.
    fn get_amount_out_view(&self, token_in: &Vec<u8>, amount_in: u128) -> (r: Result<u128, Error>)
        ensures
            r == self.quote_spec(token_in@, amount_in),
            amount_in == 0 ==> r is Err,
    ;

    /// Swaps the attached payment for at least `amount_out_min` of
    /// `token_out`, or fails without taking the payment.
    fn swap_tokens_fixed_input(
        &mut self,
        payment_in: Payment,
        token_out: &Vec<u8>,
        amount_out_min: u128,
    ) -> (r: Result<Payment, Error>)
        ensures
            match old(self).pair_swap_spec(payment_in@, token_out@, amount_out_min) {
                Ok(ps) => r matches Ok(rp) && rp@ == ps.0 && *final(self) == ps.1,
                Err(e) => r == Err::<Payment, Error>(e) && *final(self) == *old(self),
            },
            r matches Ok(p) ==> p.token_identifier@ == token_out@ && p.amount >= amount_out_min,
    ;
}

/// The router the conversion logic goes through: the same two operations,
/// addressed to the pair deployed at a given contract address.
pub trait ProxyModule: Sized {
    /// What the pair at `pair_address` quotes for a fixed input.
    spec fn amount_out_spec(&self, pair_address: u64, token_in: Seq<u8>, amount_in: u128) -> Result<
        u128,
        Error,
    >;

    /// The payment a fixed-input swap through `pair_address` returns and the
    /// router's state afterwards, or why the swap fails.
    spec fn swap_spec(
        &self,
        pair_address: u64,
        token_in: Seq<u8>,
        amount_in: u128,
        token_out: Seq<u8>,
        amount_out_min: u128,
    ) -> Result<(PaymentV, Self), Error>;

    /// Prices `amount_in` of `token_in` on the pair at `pair_address`;
    /// a zero amount is always rejected.
    fn get_amount_out(&self, pair_address: u64, token_in: &Vec<u8>, amount_in: u128) -> (r: Result<
        u128,
        Error,
    >)
        ensures
            r == self.amount_out_spec(pair_address, token_in@, amount_in),
            amount_in == 0 ==> r is Err,
    ;

    /// Swaps `amount_in` of `token_in` for at least `amount_out_min` of
    /// `token_out` on the pair at `pair_address`.
    fn swap_tokens_fixed_input(
        &mut self,
        pair_address: u64,
        token_in: Vec<u8>,
        amount_in: u128,
        token_out: &Vec<u8>,
        amount_out_min: u128,
    ) -> (r: Result<Payment, Error>)
        ensures
            match old(self).swap_spec(pair_address, token_in@, amount_in, token_out@, amount_out_min) {
                Ok(ps) => r matches Ok(rp) && rp@ == ps.0 && *final(self) == ps.1,
                Err(e) => r == Err::<Payment, Error>(e) && *final(self) == *old(self),
            },
            r matches Ok(p) ==> p.token_identifier@ == token_out@ && p.amount >= amount_out_min,
    ;
}

} // verus!
