//! A stand-in routing pair with a fixed price table, used to exercise the
//! conversion pipeline: five known tokens priced at fixed basis-point rates,
//! one token whose quote always fails, and a flat price for everything else.
//! It implements [`PairProxy`] as one pair, and [`ProxyModule`] as a router
//! that answers for every pair address alike.
use vstd::prelude::*;

use crate::math::{mul_div, pct_of};
use crate::proxy::{PairProxy, ProxyModule};
use crate::types::{bytes_eq, clone_bytes, Error, Payment, PaymentV};

verus! {

/// Price of the first known token: 1000 in buys 40 out.
pub const TOKEN_1_RATE_PERCENTAGE: u64 = 400;

/// Price of the second known token: 1000 in buys 3 out.
pub const TOKEN_2_RATE_PERCENTAGE: u64 = 30;

/// Price of the third known token: 1000 in buys 15 out.
pub const TOKEN_3_RATE_PERCENTAGE: u64 = 150;

/// Price of the fourth known token: 1000 in buys 230 out.
pub const TOKEN_4_RATE_PERCENTAGE: u64 = 2_300;

/// Price of the fifth known token: 1000 in buys 467 out.
pub const TOKEN_5_RATE_PERCENTAGE: u64 = 4_670;

/// Flat quote for any token without a configured rate.
pub const AMOUNT_OUT: u64 = 1_000_000_000;

/// The token every quote fails for ("ERR-a89kl3").
pub open spec fn err_token_spec() -> Seq<u8> {
    seq![69u8, 82u8, 82u8, 45u8, 97u8, 56u8, 57u8, 107u8, 108u8, 51u8]
}

/// The token every quote fails for ("ERR-a89kl3").
pub fn err_token() -> (r: Vec<u8>)
    ensures
        r@ == err_token_spec(),
{
    let v: Vec<u8> = vec![69u8, 82u8, 82u8, 45u8, 97u8, 56u8, 57u8, 107u8, 108u8, 51u8];
    proof {
        assert(v@ =~= err_token_spec());
    }
    v
}

/// The first known token ("USDC-0a3f5r").
pub open spec fn known_token_1_spec() -> Seq<u8> {
    seq![85u8, 83u8, 68u8, 67u8, 45u8, 48u8, 97u8, 51u8, 102u8, 53u8, 114u8]
}

/// The first known token ("USDC-0a3f5r").
pub fn known_token_1() -> (r: Vec<u8>)
    ensures
        r@ == known_token_1_spec(),
{
    let v: Vec<u8> = vec![85u8, 83u8, 68u8, 67u8, 45u8, 48u8, 97u8, 51u8, 102u8, 53u8, 114u8];
    proof {
        assert(v@ =~= known_token_1_spec());
    }
    v
}

/// The second known token ("ASH-12345a").
pub open spec fn known_token_2_spec() -> Seq<u8> {
    seq![65u8, 83u8, 72u8, 45u8, 49u8, 50u8, 51u8, 52u8, 53u8, 97u8]
}

/// The second known token ("ASH-12345a").
pub fn known_token_2() -> (r: Vec<u8>)
    ensures
        r@ == known_token_2_spec(),
{
    let v: Vec<u8> = vec![65u8, 83u8, 72u8, 45u8, 49u8, 50u8, 51u8, 52u8, 53u8, 97u8];
    proof {
        assert(v@ =~= known_token_2_spec());
    }
    v
}

/// The third known token ("RIDE-12345a").
pub open spec fn known_token_3_spec() -> Seq<u8> {
    seq![82u8, 73u8, 68u8, 69u8, 45u8, 49u8, 50u8, 51u8, 52u8, 53u8, 97u8]
}

/// The third known token ("RIDE-12345a").
pub fn known_token_3() -> (r: Vec<u8>)
    ensures
        r@ == known_token_3_spec(),
{
    let v: Vec<u8> = vec![82u8, 73u8, 68u8, 69u8, 45u8, 49u8, 50u8, 51u8, 52u8, 53u8, 97u8];
    proof {
        assert(v@ =~= known_token_3_spec());
    }
    v
}

/// The fourth known token ("RARE-12345a").
pub open spec fn known_token_4_spec() -> Seq<u8> {
    seq![82u8, 65u8, 82u8, 69u8, 45u8, 49u8, 50u8, 51u8, 52u8, 53u8, 97u8]
}

/// The fourth known token ("RARE-12345a").
pub fn known_token_4() -> (r: Vec<u8>)
    ensures
        r@ == known_token_4_spec(),
{
    let v: Vec<u8> = vec![82u8, 65u8, 82u8, 69u8, 45u8, 49u8, 50u8, 51u8, 52u8, 53u8, 97u8];
    proof {
        assert(v@ =~= known_token_4_spec());
    }
    v
}

/// The fifth known token ("LPAD-12345a").
pub open spec fn known_token_5_spec() -> Seq<u8> {
    seq![76u8, 80u8, 65u8, 68u8, 45u8, 49u8, 50u8, 51u8, 52u8, 53u8, 97u8]
}

/// The fifth known token ("LPAD-12345a").
pub fn known_token_5() -> (r: Vec<u8>)
    ensures
        r@ == known_token_5_spec(),
{
    let v: Vec<u8> = vec![76u8, 80u8, 65u8, 68u8, 45u8, 49u8, 50u8, 51u8, 52u8, 53u8, 97u8];
    proof {
        assert(v@ =~= known_token_5_spec());
    }
    v
}

/// The stand-in pair: stateless, priced by the fixed table above.
#[derive(Debug)]
pub struct PairMock {}

impl PairMock {
    /// Deploys the mock pair.
    pub fn init() -> (r: PairMock) {
        PairMock {  }
    }
}

impl PairProxy for PairMock {
    /// The fixed price table: zero amounts and the error token are rejected;
    /// the five known tokens are priced at their basis-point rates; anything
    /// else is quoted at the flat `AMOUNT_OUT`.
    open spec fn quote_spec(&self, token_in: Seq<u8>, amount_in: u128) -> Result<u128, Error> {
        if amount_in == 0 {
            Err(Error::AmountCannotBeZero)
        } else if token_in == err_token_spec() {
            Err(Error::NotEnoughReserve)
        } else if token_in == known_token_1_spec() {
            Ok(pct_of(amount_in as int, TOKEN_1_RATE_PERCENTAGE as int) as u128)
        } else if token_in == known_token_2_spec() {
            Ok(pct_of(amount_in as int, TOKEN_2_RATE_PERCENTAGE as int) as u128)
        } else if token_in == known_token_3_spec() {
            Ok(pct_of(amount_in as int, TOKEN_3_RATE_PERCENTAGE as int) as u128)
        } else if token_in == known_token_4_spec() {
            Ok(pct_of(amount_in as int, TOKEN_4_RATE_PERCENTAGE as int) as u128)
        } else if token_in == known_token_5_spec() {
            Ok(pct_of(amount_in as int, TOKEN_5_RATE_PERCENTAGE as int) as u128)
        } else {
            Ok(AMOUNT_OUT as u128)
        }
    }

    /// The mock swap never fails and pays out exactly the requested minimum.
    open spec fn pair_swap_spec(
        &self,
        payment_in: PaymentV,
        token_out: Seq<u8>,
        amount_out_min: u128,
    ) -> Result<(PaymentV, PairMock), Error> {
        Ok(
            (
                PaymentV { token_identifier: token_out, token_nonce: 0u64, amount: amount_out_min },
                PairMock {  },
            ),
        )
    }

    fn get_amount_out_view(&self, token_in: &Vec<u8>, amount_in: u128) -> (r: Result<u128, Error>) {
        if amount_in == 0 {
            return Err(Error::AmountCannotBeZero);
        }
        if bytes_eq(token_in, &err_token()) {
            return Err(Error::NotEnoughReserve);
        }
        if bytes_eq(token_in, &known_token_1()) {
            return Ok(mul_div(amount_in, TOKEN_1_RATE_PERCENTAGE));
        }
        if bytes_eq(token_in, &known_token_2()) {
            return Ok(mul_div(amount_in, TOKEN_2_RATE_PERCENTAGE));
        }
        if bytes_eq(token_in, &known_token_3()) {
            return Ok(mul_div(amount_in, TOKEN_3_RATE_PERCENTAGE));
        }
        if bytes_eq(token_in, &known_token_4()) {
            return Ok(mul_div(amount_in, TOKEN_4_RATE_PERCENTAGE));
        }
        if bytes_eq(token_in, &known_token_5()) {
            return Ok(mul_div(amount_in, TOKEN_5_RATE_PERCENTAGE));
        }
        Ok(AMOUNT_OUT as u128)
    }

    fn swap_tokens_fixed_input(
        &mut self,
        payment_in: Payment,
        token_out: &Vec<u8>,
        amount_out_min: u128,
    ) -> (r: Result<Payment, Error>) {
        Ok(Payment::new(clone_bytes(token_out), 0, amount_out_min))
    }
}

impl ProxyModule for PairMock {
    /// Every pair address answers with this mock's own price table.
    open spec fn amount_out_spec(&self, pair_address: u64, token_in: Seq<u8>, amount_in: u128) -> Result<
        u128,
        Error,
    > {
        self.quote_spec(token_in, amount_in)
    }

    /// Every pair address swaps like this mock itself.
    open spec fn swap_spec(
        &self,
        pair_address: u64,
        token_in: Seq<u8>,
        amount_in: u128,
        token_out: Seq<u8>,
        amount_out_min: u128,
    ) -> Result<(PaymentV, PairMock), Error> {
        self.pair_swap_spec(
            PaymentV { token_identifier: token_in, token_nonce: 0u64, amount: amount_in },
            token_out,
            amount_out_min,
        )
    }

    fn get_amount_out(&self, pair_address: u64, token_in: &Vec<u8>, amount_in: u128) -> (r: Result<
        u128,
        Error,
    >) {
        self.get_amount_out_view(token_in, amount_in)
    }

    fn swap_tokens_fixed_input(
        &mut self,
        pair_address: u64,
        token_in: Vec<u8>,
        amount_in: u128,
        token_out: &Vec<u8>,
        amount_out_min: u128,
    ) -> (r: Result<Payment, Error>) {
        let payment = Payment::new(token_in, 0, amount_in);
        PairProxy::swap_tokens_fixed_input(self, payment, token_out, amount_out_min)
    }
}

} // verus!
