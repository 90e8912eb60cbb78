//! Targeted exercises: validation errors, gate errors, fee arithmetic, the
//! registry, and the referral engine's edge cases.
use dust_converter::access::Blockchain;
use dust_converter::config::AddKnownTokenType;
use dust_converter::math::mul_div;
use dust_converter::pair_mock::{err_token, known_token_1, known_token_2, PairMock};
use dust_converter::proxy::PairProxy;
use dust_converter::types::{is_valid_esdt_identifier, Error, Payment};
use dust_converter::DustConverter;

static WRAPPED_TOKEN: &[u8] = b"WEGLD-0a3f5r";
static USDC_TOKEN: &[u8] = b"USDC-0a3f5r";

const OWNER: u64 = 1;
const PAIR_ADDR: u64 = 77;

fn fresh() -> (DustConverter, PairMock, Blockchain) {
    let mut dc = DustConverter::init(
        500,
        50,
        WRAPPED_TOKEN.to_vec(),
        USDC_TOKEN.to_vec(),
        OWNER,
    )
    .unwrap();
    let pair = PairMock::init();
    let bc = Blockchain { contract_addresses: vec![PAIR_ADDR] };
    dc.config
        .top_up(&dc.access, OWNER, Payment::new(WRAPPED_TOKEN.to_vec(), 0, 1_000_000_000_000))
        .unwrap();
    dc.referral
        .add_tier_details(&dc.access, OWNER, b"Bronze".to_vec(), 0, 500)
        .unwrap();
    dc.referral
        .add_tier_details(&dc.access, OWNER, b"Silver".to_vec(), 5_000_000_000, 1_000)
        .unwrap();
    (dc, pair, bc)
}

fn register_known(dc: &mut DustConverter, bc: &Blockchain, output: &[u8], token: Vec<u8>) {
    let entries = vec![AddKnownTokenType { token, sc_address: PAIR_ADDR, min_amount: 2 }];
    dc.config
        .add_known_tokens(&dc.access, OWNER, bc, &output.to_vec(), &entries)
        .unwrap();
}

fn init_error(r: Result<DustConverter, Error>) -> Error {
    match r {
        Err(e) => e,
        Ok(_) => panic!("expected initialization to fail"),
    }
}

#[test]
fn init_rejects_bad_parameters() {
    let e = init_error(DustConverter::init(
        9_000,
        50,
        WRAPPED_TOKEN.to_vec(),
        USDC_TOKEN.to_vec(),
        OWNER,
    ));
    assert_eq!(e, Error::InvalidProtocolFee);
    assert_eq!(e.message(), "Invalid protocol fee value");

    let e = init_error(DustConverter::init(
        500,
        10_000,
        WRAPPED_TOKEN.to_vec(),
        USDC_TOKEN.to_vec(),
        OWNER,
    ));
    assert_eq!(e, Error::InvalidSlippagePercent);

    let e = init_error(DustConverter::init(
        500,
        50,
        b"notvalid".to_vec(),
        USDC_TOKEN.to_vec(),
        OWNER,
    ));
    assert_eq!(e, Error::InvalidEsdtId);
    assert_eq!(e.message(), "Not a valid esdt id");
}

#[test]
fn token_identifier_validation() {
    assert!(is_valid_esdt_identifier(&WRAPPED_TOKEN.to_vec()));
    assert!(is_valid_esdt_identifier(&b"USDC-0a3f5r".to_vec()));
    assert!(!is_valid_esdt_identifier(&b"usdc-0a3f5r".to_vec()));
    assert!(!is_valid_esdt_identifier(&b"US-0a3f5r".to_vec()));
    assert!(!is_valid_esdt_identifier(&b"USDC0a3f5r".to_vec()));
    assert!(!is_valid_esdt_identifier(&b"USDC-0A3F5R".to_vec()));
    assert!(!is_valid_esdt_identifier(&b"".to_vec()));
}

#[test]
fn fee_math_is_exact() {
    assert_eq!(mul_div(10_001, 500), 500);
    assert_eq!(mul_div(127_500, 500), 6_375);
    assert_eq!(mul_div(6_375, 500), 318);
    assert_eq!(mul_div(0, 8_999), 0);
    assert_eq!(mul_div(u128::MAX, 9_999), u128::MAX / 10_000 * 9_999 + (u128::MAX % 10_000) * 9_999 / 10_000);
}

#[test]
fn setters_are_gated_and_validated() {
    let (mut dc, _pair, _bc) = fresh();
    let stranger: u64 = 9;
    let e = dc.config.set_fee_percentage(&dc.access, stranger, 100).unwrap_err();
    assert_eq!(e, Error::Unauthorized);
    let e = dc.config.set_fee_percentage(&dc.access, OWNER, 9_000).unwrap_err();
    assert_eq!(e, Error::FeePercentInvalid);
    dc.config.set_fee_percentage(&dc.access, OWNER, 100).unwrap();
    assert_eq!(dc.config.protocol_fee_percent, 100);

    let e = dc.config.set_slippage_percentage(&dc.access, OWNER, 9_000).unwrap_err();
    assert_eq!(e, Error::SlippagePercentInvalid);
    dc.config.set_slippage_percentage(&dc.access, OWNER, 75).unwrap();
    assert_eq!(dc.config.slippage_percent, 75);
}

#[test]
fn top_up_rejects_other_tokens() {
    let (mut dc, _pair, _bc) = fresh();
    let e = dc
        .config
        .top_up(&dc.access, OWNER, Payment::new(known_token_1(), 0, 5))
        .unwrap_err();
    assert_eq!(e, Error::InvalidToken);
}

#[test]
fn extract_fees_drains_the_ledger() {
    let (mut dc, pair, bc) = fresh();
    register_known(&mut dc, &bc, WRAPPED_TOKEN, known_token_1());
    dc.access.resume(OWNER).unwrap();
    let payments = vec![Payment::new(known_token_1(), 0, 3_000_000u128)];
    dc.swap_dust_tokens(&pair, OWNER, &payments, 1, 0, None).unwrap();
    let fee = 3_000_000u128 * 400 / 10_000 * 500 / 10_000;
    assert_eq!(dc.config.collected_fee_amount, fee);

    let before = dc.config.balance_of(&WRAPPED_TOKEN.to_vec());
    let payout = dc.config.extract_fees(&dc.access, OWNER).unwrap();
    assert_eq!(payout.amount, fee);
    assert_eq!(dc.config.collected_fee_amount, 0);
    assert_eq!(dc.config.balance_of(&WRAPPED_TOKEN.to_vec()), before - fee);
}

#[test]
fn add_known_tokens_validates_and_skips() {
    let (mut dc, _pair, bc) = fresh();
    // a malformed token aborts the whole call
    let entries = vec![AddKnownTokenType {
        token: b"bad".to_vec(),
        sc_address: PAIR_ADDR,
        min_amount: 2,
    }];
    let e = dc
        .config
        .add_known_tokens(&dc.access, OWNER, &bc, &WRAPPED_TOKEN.to_vec(), &entries)
        .unwrap_err();
    assert_eq!(e, Error::InvalidTokenId);
    assert!(dc.config.known_tokens.is_empty());

    // a route that is not a contract aborts the whole call
    let entries = vec![AddKnownTokenType {
        token: known_token_1(),
        sc_address: 12345,
        min_amount: 2,
    }];
    let e = dc
        .config
        .add_known_tokens(&dc.access, OWNER, &bc, &WRAPPED_TOKEN.to_vec(), &entries)
        .unwrap_err();
    assert_eq!(e, Error::InvalidScAddress);

    // re-registering is a silent per-token skip: the first threshold stays
    register_known(&mut dc, &bc, WRAPPED_TOKEN, known_token_1());
    let entries = vec![AddKnownTokenType {
        token: known_token_1(),
        sc_address: PAIR_ADDR,
        min_amount: 999,
    }];
    dc.config
        .add_known_tokens(&dc.access, OWNER, &bc, &WRAPPED_TOKEN.to_vec(), &entries)
        .unwrap();
    assert_eq!(dc.config.known_tokens.len(), 1);
    assert_eq!(dc.config.token_threshold(&known_token_1()), 2);
}

#[test]
fn remove_known_tokens_and_listing() {
    let (mut dc, _pair, bc) = fresh();
    register_known(&mut dc, &bc, WRAPPED_TOKEN, known_token_1());
    register_known(&mut dc, &bc, WRAPPED_TOKEN, known_token_2());
    let all = dc.config.get_all_tokens(&WRAPPED_TOKEN.to_vec());
    assert_eq!(all, vec![known_token_1(), known_token_2()]);

    // unknown tokens are silently skipped
    dc.config
        .remove_known_tokens(&dc.access, OWNER, &vec![known_token_1(), b"UKN-1sy8n4".to_vec()])
        .unwrap();
    let all = dc.config.get_all_tokens(&WRAPPED_TOKEN.to_vec());
    assert_eq!(all, vec![known_token_2()]);
}

#[test]
fn swap_rejects_bad_split_and_paused_state() {
    let (mut dc, pair, bc) = fresh();
    register_known(&mut dc, &bc, WRAPPED_TOKEN, known_token_1());
    let payments = vec![Payment::new(known_token_1(), 0, 1_000u128)];

    // paused
    let e = dc.swap_dust_tokens(&pair, OWNER, &payments, 1, 0, None).unwrap_err();
    assert_eq!(e, Error::NotActive);

    dc.access.resume(OWNER).unwrap();
    // split index out of range
    let e = dc.swap_dust_tokens(&pair, OWNER, &payments, 2, 0, None).unwrap_err();
    assert_eq!(e, Error::InvalidNumWegld);
    assert_eq!(e.message(), "Invalid num_wegld");
}

#[test]
fn swap_rejects_wrong_route_slippage_and_zero() {
    let (mut dc, pair, bc) = fresh();
    register_known(&mut dc, &bc, WRAPPED_TOKEN, known_token_1());
    register_known(&mut dc, &bc, USDC_TOKEN, known_token_2());
    dc.access.resume(OWNER).unwrap();

    // a known token in the wrong group fails the whole call
    let payments = vec![Payment::new(known_token_2(), 0, 1_000_000u128)];
    let e = dc.swap_dust_tokens(&pair, OWNER, &payments, 1, 0, None).unwrap_err();
    assert_eq!(e, Error::InvalidPayments);
    assert_eq!(e.message(), "Invalid payments");

    // net below the requested minimum
    let payments = vec![Payment::new(known_token_1(), 0, 1_000_000u128)];
    let e = dc
        .swap_dust_tokens(&pair, OWNER, &payments, 1, 1_000_000_000, None)
        .unwrap_err();
    assert_eq!(e, Error::SlippageExceeded);
    assert_eq!(e.message(), "Slippage exceeded");

    // an empty batch nets zero and cannot be claimed
    let payments: Vec<Payment> = Vec::new();
    let e = dc.swap_dust_tokens(&pair, OWNER, &payments, 0, 0, None).unwrap_err();
    assert_eq!(e, Error::ZeroAmount);
    assert_eq!(e.message(), "Zero amount cannot be claimed");
}

#[test]
fn register_twice_always_fails() {
    let (mut dc, _pair, _bc) = fresh();
    dc.access.resume(OWNER).unwrap();
    let user_1: u64 = 2;
    let user_2: u64 = 3;
    let tag = b"TEST5".to_vec();
    dc.referral.register_referral_tag(&dc.access, user_1, &tag).unwrap();

    // the same tag, even for another caller
    let e = dc.referral.register_referral_tag(&dc.access, user_2, &tag).unwrap_err();
    assert_eq!(e, Error::TagAlreadyRegistered);
    assert_eq!(e.message(), "Tag already registered");

    // another tag for the same caller
    let e = dc
        .referral
        .register_referral_tag(&dc.access, user_1, &b"OTHER".to_vec())
        .unwrap_err();
    assert_eq!(e, Error::UserAlreadyOwnsTag);
    assert_eq!(e.message(), "User already owns a tag");
}

#[test]
fn register_needs_exactly_one_base_tier() {
    let mut dc = DustConverter::init(
        500,
        50,
        WRAPPED_TOKEN.to_vec(),
        USDC_TOKEN.to_vec(),
        OWNER,
    )
    .unwrap();
    dc.access.resume(OWNER).unwrap();
    let user: u64 = 2;
    let tag = b"TEST5".to_vec();

    let e = dc.referral.register_referral_tag(&dc.access, user, &tag).unwrap_err();
    assert_eq!(e, Error::TiersNotSet);

    dc.referral.add_tier_details(&dc.access, OWNER, b"Silver".to_vec(), 10, 1_000).unwrap();
    let e = dc.referral.register_referral_tag(&dc.access, user, &tag).unwrap_err();
    assert_eq!(e, Error::NoBaseTier);
    assert_eq!(e.message(), "No tier with min volume 0");

    dc.referral.add_tier_details(&dc.access, OWNER, b"Wood".to_vec(), 0, 100).unwrap();
    dc.referral.add_tier_details(&dc.access, OWNER, b"Stone".to_vec(), 0, 200).unwrap();
    let e = dc.referral.register_referral_tag(&dc.access, user, &tag).unwrap_err();
    assert_eq!(e, Error::NoBaseTier);

    dc.referral.remove_tier_details(&dc.access, OWNER, &b"Stone".to_vec()).unwrap();
    dc.referral.register_referral_tag(&dc.access, user, &tag).unwrap();
    assert_eq!(dc.referral.referral_tag_percent(&tag), 100);
}

#[test]
fn claim_and_remove_pay_out_exactly_once() {
    let (mut dc, pair, bc) = fresh();
    register_known(&mut dc, &bc, WRAPPED_TOKEN, known_token_1());
    dc.access.resume(OWNER).unwrap();
    let owner_of_tag: u64 = 2;
    let tag = b"TEST5".to_vec();
    dc.referral.register_referral_tag(&dc.access, owner_of_tag, &tag).unwrap();

    // no fees accrued yet
    let e = dc
        .referral
        .claim_referral_fees(&dc.access, owner_of_tag, &mut dc.config)
        .unwrap_err();
    assert_eq!(e, Error::NoFeesToClaim);
    assert_eq!(e.message(), "No fees to claim");

    let payments = vec![Payment::new(known_token_1(), 0, 3_000_000u128)];
    dc.swap_dust_tokens(&pair, OWNER, &payments, 1, 0, Some(tag.clone())).unwrap();
    let fee = 3_000_000u128 * 400 / 10_000 * 500 / 10_000;
    let cut = fee * 500 / 10_000;
    assert_eq!(dc.referral.collected_tag_fees(&tag), cut);

    let payout = dc
        .referral
        .claim_referral_fees(&dc.access, owner_of_tag, &mut dc.config)
        .unwrap();
    assert_eq!(payout.token_identifier, WRAPPED_TOKEN.to_vec());
    assert_eq!(payout.amount, cut);
    // paid out exactly once: afterwards the balance reads as zero
    assert_eq!(dc.referral.collected_tag_fees(&tag), 0);
    assert_eq!(dc.referral.get_collected_fee_amount(owner_of_tag), 0);
    let e = dc
        .referral
        .claim_referral_fees(&dc.access, owner_of_tag, &mut dc.config)
        .unwrap_err();
    assert_eq!(e, Error::NoFeesToClaim);

    // forced removal of an address without a tag
    let e = dc
        .referral
        .remove_referral_tag(&dc.access, OWNER, 9, &mut dc.config)
        .unwrap_err();
    assert_eq!(e, Error::NotATagOwner);

    // forced removal with nothing accrued pays nothing and clears everything
    let payout = dc
        .referral
        .remove_referral_tag(&dc.access, OWNER, owner_of_tag, &mut dc.config)
        .unwrap();
    assert!(payout.is_none());
    assert_eq!(dc.referral.user_tag_mapping(owner_of_tag), None);
    assert_eq!(dc.referral.accumulated_volume(&tag), 0);
    assert_eq!(dc.referral.referral_tag_percent(&tag), 0);
}

#[test]
fn tier_upgrade_is_monotonic() {
    let (mut dc, pair, bc) = fresh();
    register_known(&mut dc, &bc, WRAPPED_TOKEN, known_token_1());
    dc.access.resume(OWNER).unwrap();
    let user: u64 = 2;
    let tag = b"TEST5".to_vec();
    dc.referral.register_referral_tag(&dc.access, user, &tag).unwrap();
    assert_eq!(dc.referral.referral_tag_percent(&tag), 500);

    // one large tagged conversion pushes the volume past the Silver tier
    dc.config
        .top_up(
            &dc.access,
            OWNER,
            Payment::new(WRAPPED_TOKEN.to_vec(), 0, 100_000_000_000u128),
        )
        .unwrap();
    let payments = vec![Payment::new(known_token_1(), 0, 200_000_000_000u128)];
    dc.swap_dust_tokens(&pair, OWNER, &payments, 1, 0, Some(tag.clone())).unwrap();
    assert_eq!(dc.referral.accumulated_volume(&tag), 8_000_000_000);

    let name = dc.referral.update_user_tier(&dc.access, user).unwrap();
    assert_eq!(name, b"Silver".to_vec());
    assert_eq!(dc.referral.referral_tag_percent(&tag), 1_000);

    // a second update finds nothing strictly better
    let e = dc.referral.update_user_tier(&dc.access, user).unwrap_err();
    assert_eq!(e, Error::NoTierUpgradeFound);
}

#[test]
fn set_tag_percent_validates() {
    let (mut dc, _pair, _bc) = fresh();
    dc.access.resume(OWNER).unwrap();
    let tag = b"TEST5".to_vec();
    let e = dc
        .referral
        .set_referral_fee_percentage(&dc.access, OWNER, &tag, 9_500)
        .unwrap_err();
    assert_eq!(e, Error::InvalidNewPercentage);
    let e = dc
        .referral
        .set_referral_fee_percentage(&dc.access, OWNER, &tag, 1_000)
        .unwrap_err();
    assert_eq!(e, Error::TagNotFound);
    assert_eq!(e.message(), "Tag not found");
}

#[test]
fn sweep_skips_unknown_and_below_threshold() {
    let (mut dc, mut pair, bc) = fresh();
    // threshold far above what the holdings can be quoted at
    let entries = vec![AddKnownTokenType {
        token: known_token_1(),
        sc_address: PAIR_ADDR,
        min_amount: 1_000_000_000,
    }];
    dc.config
        .add_known_tokens(&dc.access, OWNER, &bc, &WRAPPED_TOKEN.to_vec(), &entries)
        .unwrap();
    dc.access.resume(OWNER).unwrap();
    let payments = vec![Payment::new(known_token_1(), 0, 3_000_000u128)];
    dc.swap_dust_tokens(&pair, OWNER, &payments, 1, 0, None).unwrap();

    // quote 120000 is at or below the threshold, and the other token is unknown
    let swaps = dc.sell_dust_tokens(&mut pair, &vec![known_token_1(), b"UKN-1sy8n4".to_vec()]);
    assert!(swaps.is_empty());
    assert_eq!(dc.config.balance_of(&known_token_1()), 3_000_000);
}

#[test]
fn referral_tag_unknown_to_engine_earns_nothing() {
    let (mut dc, pair, bc) = fresh();
    register_known(&mut dc, &bc, WRAPPED_TOKEN, known_token_1());
    dc.access.resume(OWNER).unwrap();

    // an unregistered tag accrues volume but earns no cut
    let tag = b"GHOST".to_vec();
    let payments = vec![Payment::new(known_token_1(), 0, 3_000_000u128)];
    dc.swap_dust_tokens(&pair, OWNER, &payments, 1, 0, Some(tag.clone())).unwrap();
    let fee = 3_000_000u128 * 400 / 10_000 * 500 / 10_000;
    assert_eq!(dc.referral.collected_tag_fees(&tag), 0);
    assert_eq!(dc.referral.accumulated_volume(&tag), 120_000);
    assert_eq!(dc.config.collected_fee_amount, fee);
}

#[test]
fn error_messages_read_as_the_host_reports_them() {
    assert_eq!(Error::InvalidScAddress.message(), "Invalid SC address");
    assert_eq!(Error::InvalidTokenId.message(), "Invalid token ID");
    assert_eq!(Error::Unauthorized.message(), "Permission denied");
    assert_eq!(Error::TierNotFound.message(), "Tier not found");
    assert_eq!(Error::NotATagOwner.message(), "Not a tag owner");
    assert_eq!(Error::AmountCannotBeZero.message(), "Amount cannot be zero");
    assert_eq!(Error::InsufficientBalance.message(), "Insufficient balance");
}

#[test]
fn mock_pair_quotes_by_its_table() {
    let pair = PairMock::init();
    let e = pair.get_amount_out_view(&known_token_1(), 0).unwrap_err();
    assert_eq!(e, Error::AmountCannotBeZero);
    assert_eq!(e.message(), "Amount cannot be zero");
    let e = pair.get_amount_out_view(&err_token(), 1_000).unwrap_err();
    assert_eq!(e, Error::NotEnoughReserve);
    assert_eq!(pair.get_amount_out_view(&known_token_1(), 10_000).unwrap(), 400);
    assert_eq!(pair.get_amount_out_view(&known_token_2(), 10_000).unwrap(), 30);
    // an unlisted token gets the flat quote
    assert_eq!(pair.get_amount_out_view(&b"UKN-1sy8n4".to_vec(), 10_000).unwrap(), 1_000_000_000);
}

#[test]
fn slippage_helpers_are_exact() {
    let (dc, _pair, _bc) = fresh();
    assert_eq!(dc.get_fee_from_input(10_000), 500);
    assert_eq!(dc.get_amount_out_min(1_000), 995);
    assert_eq!(dc.get_amount_in_max(1_000), 1_005);
}

#[test]
fn swap_fails_when_reserve_cannot_cover_the_payout() {
    let mut dc = DustConverter::init(
        500,
        50,
        WRAPPED_TOKEN.to_vec(),
        USDC_TOKEN.to_vec(),
        OWNER,
    )
    .unwrap();
    let pair = PairMock::init();
    let bc = Blockchain { contract_addresses: vec![PAIR_ADDR] };
    register_known(&mut dc, &bc, WRAPPED_TOKEN, known_token_1());
    dc.access.resume(OWNER).unwrap();
    // no top-up: the contract holds no wrapped token at all
    let payments = vec![Payment::new(known_token_1(), 0, 3_000_000u128)];
    let before_t1 = dc.config.balance_of(&known_token_1());
    let e = dc.swap_dust_tokens(&pair, OWNER, &payments, 1, 0, None).unwrap_err();
    assert_eq!(e, Error::InsufficientBalance);
    assert_eq!(e.message(), "Insufficient balance");
    // the failed call left nothing behind
    assert_eq!(dc.config.balance_of(&known_token_1()), before_t1);
    assert_eq!(dc.config.collected_fee_amount, 0);
}

#[test]
fn pause_gates_are_enforced() {
    let (mut dc, _pair, _bc) = fresh();
    let stranger: u64 = 9;
    let e = dc.access.resume(stranger).unwrap_err();
    assert_eq!(e, Error::Unauthorized);
    dc.access.resume(OWNER).unwrap();
    let e = dc.access.pause(stranger).unwrap_err();
    assert_eq!(e, Error::Unauthorized);
    dc.access.pause(OWNER).unwrap();
    let e = dc
        .referral
        .register_referral_tag(&dc.access, stranger, &b"TEST5".to_vec())
        .unwrap_err();
    assert_eq!(e, Error::NotActive);
    assert_eq!(e.message(), "Contract is not active");
}
