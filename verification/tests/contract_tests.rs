//! End-to-end exercises of the dust converter against the mock routing pair.
use dust_converter::access::Blockchain;
use dust_converter::config::AddKnownTokenType;
use dust_converter::pair_mock::{
    err_token, known_token_1, known_token_2, known_token_3, known_token_4, known_token_5, PairMock,
    AMOUNT_OUT, TOKEN_1_RATE_PERCENTAGE, TOKEN_2_RATE_PERCENTAGE, TOKEN_3_RATE_PERCENTAGE,
    TOKEN_4_RATE_PERCENTAGE, TOKEN_5_RATE_PERCENTAGE,
};
use dust_converter::types::{Error, Payment, MAX_PERCENTAGE};
use dust_converter::DustConverter;

static WRAPPED_TOKEN: &[u8] = b"WEGLD-0a3f5r";
static USDC_TOKEN: &[u8] = b"USDC-0a3f5r";
pub const UNKOWN_TOKEN_3: &[u8] = b"UKN-1sy8n4";

pub const OWNER: u64 = 1;
pub const PAIR_ADDR: u64 = 77;

pub const TIER_1_MIN_VOLUME: u128 = 0;
pub const TIER_2_MIN_VOLUME: u128 = 5_000_000_000;
pub const TIER_3_MIN_VOLUME: u128 = 25_000_000_000;
pub const TIER_4_MIN_VOLUME: u128 = 50_000_000_000_000;

pub const TIER_1_FEE_PERCENT: u64 = 500;
pub const TIER_2_FEE_PERCENT: u64 = 1_000;
pub const TIER_3_FEE_PERCENT: u64 = 1_500;
pub const TIER_4_FEE_PERCENT: u64 = 2_500;

fn compute_token_out_amount(token_in_amount: u128, token_id: &[u8]) -> u128 {
    let rate = if token_id == known_token_1().as_slice() {
        TOKEN_1_RATE_PERCENTAGE
    } else if token_id == known_token_2().as_slice() {
        TOKEN_2_RATE_PERCENTAGE
    } else if token_id == known_token_3().as_slice() {
        TOKEN_3_RATE_PERCENTAGE
    } else if token_id == known_token_4().as_slice() {
        TOKEN_4_RATE_PERCENTAGE
    } else if token_id == known_token_5().as_slice() {
        TOKEN_5_RATE_PERCENTAGE
    } else {
        return AMOUNT_OUT as u128;
    };
    token_in_amount * rate as u128 / MAX_PERCENTAGE as u128
}

fn setup() -> (DustConverter, PairMock, Blockchain) {
    let mut dc = DustConverter::init(
        500,
        50,
        WRAPPED_TOKEN.to_vec(),
        USDC_TOKEN.to_vec(),
        OWNER,
    )
    .unwrap();
    let pair = PairMock::init();
    let bc = Blockchain { contract_addresses: vec![PAIR_ADDR] };
    let initial_sc_balance: u128 = 10_000_000_000_000_000_000;
    dc.config
        .top_up(
            &dc.access,
            OWNER,
            Payment::new(WRAPPED_TOKEN.to_vec(), 0, initial_sc_balance),
        )
        .unwrap();
    dc.referral
        .add_tier_details(&dc.access, OWNER, b"Bronze".to_vec(), TIER_1_MIN_VOLUME, TIER_1_FEE_PERCENT)
        .unwrap();
    dc.referral
        .add_tier_details(&dc.access, OWNER, b"Silver".to_vec(), TIER_2_MIN_VOLUME, TIER_2_FEE_PERCENT)
        .unwrap();
    dc.referral
        .add_tier_details(&dc.access, OWNER, b"Gold".to_vec(), TIER_3_MIN_VOLUME, TIER_3_FEE_PERCENT)
        .unwrap();
    dc.referral
        .add_tier_details(&dc.access, OWNER, b"Platinum".to_vec(), TIER_4_MIN_VOLUME, TIER_4_FEE_PERCENT)
        .unwrap();
    (dc, pair, bc)
}

fn add_known_tokens(dc: &mut DustConverter, bc: &Blockchain, output: &[u8], tokens: Vec<Vec<u8>>) {
    let mut entries: Vec<AddKnownTokenType> = Vec::new();
    for t in tokens {
        entries.push(AddKnownTokenType { token: t, sc_address: PAIR_ADDR, min_amount: 2 });
    }
    dc.config
        .add_known_tokens(&dc.access, OWNER, bc, &output.to_vec(), &entries)
        .unwrap();
}

#[test]
fn deploy_test() {
    let (dc, _pair, _bc) = setup();
    assert_eq!(dc.config.protocol_fee_percent, 500);
    assert_eq!(dc.config.slippage_percent, 50);
    assert_eq!(dc.config.wrapped_token, WRAPPED_TOKEN.to_vec());
    assert_eq!(dc.config.usdc_token, USDC_TOKEN.to_vec());
}

#[test]
fn deploy() {
    let (dc, _pair, _bc) = setup();
    assert_eq!(dc.config.collected_fee_amount, 0);
    assert!(dc.config.known_tokens.is_empty());
}

#[test]
fn test_swap_dust_token_wegld_success() {
    let token_1_amount: u128 = 3000000;
    let token_2_amount: u128 = 4000000;
    let (mut dc, pair, bc) = setup();
    add_known_tokens(&mut dc, &bc, WRAPPED_TOKEN, vec![known_token_1(), known_token_2()]);
    dc.access.resume(OWNER).unwrap();

    let payments = vec![
        Payment::new(known_token_1(), 0, token_1_amount),
        Payment::new(known_token_2(), 0, token_2_amount),
    ];

    let amount_out = compute_token_out_amount(token_1_amount, &known_token_1())
        + compute_token_out_amount(token_2_amount, &known_token_2());
    let fee = amount_out * 500 / MAX_PERCENTAGE as u128;
    let total = amount_out - fee;

    let num = payments.len();
    let out = dc.swap_dust_tokens(&pair, OWNER, &payments, num, total, None).unwrap();

    assert_eq!(out.payout.token_identifier, WRAPPED_TOKEN.to_vec());
    assert_eq!(out.payout.amount, total);
    assert!(out.refunds.is_empty());
    // the dust stays with the contract
    assert_eq!(dc.config.balance_of(&known_token_1()), token_1_amount);
    assert_eq!(dc.config.balance_of(&known_token_2()), token_2_amount);
}

#[test]
fn test_swap_dust_tokens_usdc_success() {
    let token_2_amount: u128 = 3000000;
    let token_3_amount: u128 = 4000000;
    let (mut dc, pair, bc) = setup();
    add_known_tokens(&mut dc, &bc, WRAPPED_TOKEN, vec![known_token_1()]);
    add_known_tokens(&mut dc, &bc, USDC_TOKEN, vec![known_token_2(), known_token_3()]);
    dc.access.resume(OWNER).unwrap();

    let payments = vec![
        Payment::new(known_token_2(), 0, token_2_amount),
        Payment::new(known_token_3(), 0, token_3_amount),
    ];

    let usdc_amount = compute_token_out_amount(token_2_amount, &known_token_2())
        + compute_token_out_amount(token_3_amount, &known_token_3());
    let wegld_amount = compute_token_out_amount(usdc_amount, USDC_TOKEN);
    let fee = wegld_amount * 500 / MAX_PERCENTAGE as u128;
    let total = wegld_amount - fee;

    let out = dc.swap_dust_tokens(&pair, OWNER, &payments, 0, total, None).unwrap();

    assert_eq!(out.payout.token_identifier, WRAPPED_TOKEN.to_vec());
    assert_eq!(out.payout.amount, total);
    assert!(out.refunds.is_empty());
}

#[test]
fn test_swap_dust_tokens_usdc_wegld_success() {
    let token_1_amount: u128 = 3000000;
    let token_2_amount: u128 = 3000000;
    let token_3_amount: u128 = 4000000;
    let token_4_amount: u128 = 5000000;
    let token_5_amount: u128 = 5000000;
    let (mut dc, pair, bc) = setup();
    add_known_tokens(
        &mut dc,
        &bc,
        WRAPPED_TOKEN,
        vec![known_token_1(), known_token_2(), known_token_3()],
    );
    add_known_tokens(&mut dc, &bc, USDC_TOKEN, vec![known_token_4(), known_token_5()]);
    dc.access.resume(OWNER).unwrap();

    let payments = vec![
        Payment::new(known_token_1(), 0, token_1_amount),
        Payment::new(known_token_2(), 0, token_2_amount),
        Payment::new(known_token_3(), 0, token_3_amount),
        Payment::new(known_token_4(), 0, token_4_amount),
        Payment::new(known_token_5(), 0, token_5_amount),
    ];

    let usdc_tokens_amount = compute_token_out_amount(token_4_amount, &known_token_4())
        + compute_token_out_amount(token_5_amount, &known_token_5());
    let amount_out = compute_token_out_amount(token_1_amount + usdc_tokens_amount, &known_token_1())
        + compute_token_out_amount(token_2_amount, &known_token_2())
        + compute_token_out_amount(token_3_amount, &known_token_3());
    let fee = amount_out * 500 / MAX_PERCENTAGE as u128;
    let total = amount_out - fee;

    let out = dc.swap_dust_tokens(&pair, OWNER, &payments, 3, total, None).unwrap();

    assert_eq!(out.payout.amount, total);
    assert!(out.refunds.is_empty());
}

#[test]
fn test_swap_dust_tokens_usdc_wegld_refund_tokens() {
    let unknown_token_amount: u128 = 3000000;
    let token_2_amount: u128 = 3000000;
    let token_3_amount: u128 = 4000000;
    let token_4_amount: u128 = 5000000;
    let token_5_amount: u128 = 5000000;
    let (mut dc, pair, bc) = setup();
    add_known_tokens(
        &mut dc,
        &bc,
        WRAPPED_TOKEN,
        vec![known_token_1(), known_token_2(), known_token_3()],
    );
    add_known_tokens(&mut dc, &bc, USDC_TOKEN, vec![known_token_4(), known_token_5()]);
    dc.access.resume(OWNER).unwrap();

    let payments = vec![
        Payment::new(UNKOWN_TOKEN_3.to_vec(), 0, unknown_token_amount),
        Payment::new(known_token_2(), 0, token_2_amount),
        Payment::new(known_token_3(), 0, token_3_amount),
        Payment::new(known_token_4(), 0, token_4_amount),
        Payment::new(known_token_5(), 0, token_5_amount),
    ];

    let usdc_tokens_amount = compute_token_out_amount(token_4_amount, &known_token_4())
        + compute_token_out_amount(token_5_amount, &known_token_5());
    let amount_out = compute_token_out_amount(usdc_tokens_amount, USDC_TOKEN)
        + compute_token_out_amount(token_2_amount, &known_token_2())
        + compute_token_out_amount(token_3_amount, &known_token_3());
    let fee = amount_out * 500 / MAX_PERCENTAGE as u128;
    let total = amount_out - fee;

    let out = dc.swap_dust_tokens(&pair, OWNER, &payments, 3, total, None).unwrap();

    assert_eq!(out.payout.amount, total);
    // the unknown token comes back untouched
    assert_eq!(out.refunds.len(), 1);
    assert_eq!(out.refunds[0].token_identifier, UNKOWN_TOKEN_3.to_vec());
    assert_eq!(out.refunds[0].amount, unknown_token_amount);
    assert_eq!(dc.config.balance_of(&UNKOWN_TOKEN_3.to_vec()), 0);
}

#[test]
fn test_swap_dust_token_pair_fail() {
    let initial_err_amount: u128 = 1_000_000;
    let (mut dc, pair, bc) = setup();
    add_known_tokens(&mut dc, &bc, WRAPPED_TOKEN, vec![err_token()]);
    dc.access.resume(OWNER).unwrap();

    let payments = vec![Payment::new(err_token(), 0, initial_err_amount)];
    let before = dc.config.balance_of(&err_token());

    let num = payments.len();
    let e = dc
        .swap_dust_tokens(&pair, OWNER, &payments, num, initial_err_amount, None)
        .unwrap_err();
    assert_eq!(e, Error::NotEnoughReserve);
    assert_eq!(e.message(), "Not enough reserve");
    // nothing was converted or retained
    assert_eq!(dc.config.balance_of(&err_token()), before);
}

#[test]
fn test_sell_dust_tokens() {
    let token_1_amount: u128 = 3000000;
    let token_2_amount: u128 = 4000000;
    let (mut dc, mut pair, bc) = setup();
    add_known_tokens(&mut dc, &bc, WRAPPED_TOKEN, vec![known_token_1(), known_token_2()]);
    dc.access.resume(OWNER).unwrap();

    let user: u64 = 2;
    let payments = vec![
        Payment::new(known_token_1(), 0, token_1_amount),
        Payment::new(known_token_2(), 0, token_2_amount),
    ];

    let amount_out = compute_token_out_amount(token_1_amount, &known_token_1())
        + compute_token_out_amount(token_2_amount, &known_token_2());
    let fee = amount_out * 500 / MAX_PERCENTAGE as u128;
    let total = amount_out - fee;

    let num = payments.len();
    let out = dc.swap_dust_tokens(&pair, user, &payments, num, total, None).unwrap();
    assert_eq!(out.payout.amount, total);

    let swaps = dc.sell_dust_tokens(&mut pair, &vec![known_token_1(), known_token_2()]);
    assert_eq!(swaps.len(), 2);
    // the whole holdings went out, at the slippage-bounded minimum
    let value_1 = compute_token_out_amount(token_1_amount, &known_token_1());
    let value_2 = compute_token_out_amount(token_2_amount, &known_token_2());
    assert_eq!(swaps[0].amount_in, token_1_amount);
    assert_eq!(swaps[0].received.amount, value_1 - value_1 * 50 / MAX_PERCENTAGE as u128);
    assert_eq!(swaps[1].amount_in, token_2_amount);
    assert_eq!(swaps[1].received.amount, value_2 - value_2 * 50 / MAX_PERCENTAGE as u128);
    assert_eq!(dc.config.balance_of(&known_token_1()), 0);
    assert_eq!(dc.config.balance_of(&known_token_2()), 0);
}

#[test]
fn test_refund_unknown_tokens() {
    let known_token_amount: u128 = 3_000_000;
    let unkown_token_amount: u128 = 2_500_000;

    let (mut dc, pair, bc) = setup();
    add_known_tokens(&mut dc, &bc, WRAPPED_TOKEN, vec![known_token_1(), known_token_2()]);
    dc.access.resume(OWNER).unwrap();

    let user: u64 = 2;
    let payments = vec![
        Payment::new(known_token_1(), 0, known_token_amount),
        Payment::new(UNKOWN_TOKEN_3.to_vec(), 0, unkown_token_amount),
    ];

    let amount_out = compute_token_out_amount(known_token_amount, &known_token_1());
    let fee = amount_out * 500 / MAX_PERCENTAGE as u128;
    let total = amount_out - fee;

    let num = payments.len();
    let out = dc.swap_dust_tokens(&pair, user, &payments, num, total, None).unwrap();

    assert_eq!(out.payout.amount, total);
    assert_eq!(dc.config.balance_of(&known_token_1()), known_token_amount);
    // the unknown token is refunded in full
    assert_eq!(out.refunds.len(), 1);
    assert_eq!(out.refunds[0].token_identifier, UNKOWN_TOKEN_3.to_vec());
    assert_eq!(out.refunds[0].amount, unkown_token_amount);
}

#[test]
fn test_register_referral_tag() {
    let (mut dc, _pair, _bc) = setup();
    dc.access.resume(OWNER).unwrap();

    let user: u64 = 2;
    let tag = b"TEST5".to_vec();
    dc.referral.register_referral_tag(&dc.access, user, &tag).unwrap();
    assert_eq!(dc.referral.user_tag_mapping(user), Some(tag.clone()));
    assert_eq!(dc.referral.referral_tag_percent(&tag), TIER_1_FEE_PERCENT);
}

#[test]
fn test_update_referral_tag_percent() {
    let (mut dc, _pair, _bc) = setup();
    dc.access.resume(OWNER).unwrap();

    let user: u64 = 2;
    let tag = b"TEST5".to_vec();
    dc.referral.register_referral_tag(&dc.access, user, &tag).unwrap();

    assert_eq!(dc.referral.referral_tag_percent(&tag), 500);
    dc.referral.set_referral_fee_percentage(&dc.access, OWNER, &tag, 1000).unwrap();
    assert_eq!(dc.referral.referral_tag_percent(&tag), 1000);
}

#[test]
fn test_swap_token_with_referral_tag() {
    let known_token_amount_1: u128 = 3_000_000;
    let known_token_amount_2: u128 = 2_500_000;
    let tag = b"TEST5".to_vec();

    let (mut dc, pair, bc) = setup();
    add_known_tokens(&mut dc, &bc, WRAPPED_TOKEN, vec![known_token_1(), known_token_2()]);
    dc.access.resume(OWNER).unwrap();
    let user_1: u64 = 2;
    dc.referral.register_referral_tag(&dc.access, user_1, &tag).unwrap();

    let user_2: u64 = 3;
    let payments = vec![
        Payment::new(known_token_1(), 0, known_token_amount_1),
        Payment::new(known_token_2(), 0, known_token_amount_2),
    ];

    let amount_out = compute_token_out_amount(known_token_amount_1, &known_token_1())
        + compute_token_out_amount(known_token_amount_2, &known_token_2());
    let fee = amount_out * TIER_1_FEE_PERCENT as u128 / MAX_PERCENTAGE as u128;
    let referral_fee = fee * TIER_1_FEE_PERCENT as u128 / MAX_PERCENTAGE as u128;
    let total = amount_out - fee;

    let num = payments.len();
    let out = dc
        .swap_dust_tokens(&pair, user_2, &payments, num, total, Some(tag.clone()))
        .unwrap();
    assert_eq!(out.payout.amount, total);
    assert_eq!(dc.referral.collected_tag_fees(&tag), referral_fee);
    // the booked protocol fee is the fee less the referral carve-out
    assert_eq!(dc.config.collected_fee_amount, fee - referral_fee);

    let payout = dc
        .referral
        .remove_referral_tag(&dc.access, OWNER, user_1, &mut dc.config)
        .unwrap()
        .unwrap();
    assert_eq!(payout.token_identifier, WRAPPED_TOKEN.to_vec());
    assert_eq!(payout.amount, referral_fee);
}

#[test]
fn test_accumulate_volume_and_update_tier() {
    let known_token_amount_1: u128 = 3_000_000;
    let known_token_amount_2: u128 = 2_500_000;
    let tag = b"TEST5".to_vec();

    let (mut dc, pair, bc) = setup();
    add_known_tokens(&mut dc, &bc, WRAPPED_TOKEN, vec![known_token_1(), known_token_2()]);
    dc.access.resume(OWNER).unwrap();
    let user_1: u64 = 2;
    dc.referral.register_referral_tag(&dc.access, user_1, &tag).unwrap();

    let user_2: u64 = 3;
    let payments = vec![
        Payment::new(known_token_1(), 0, known_token_amount_1 / 5),
        Payment::new(known_token_2(), 0, known_token_amount_2 / 5),
    ];

    let amount_out = compute_token_out_amount(known_token_amount_1 / 5, &known_token_1())
        + compute_token_out_amount(known_token_amount_2 / 5, &known_token_2());
    let protocol_fee = amount_out * 500 / MAX_PERCENTAGE as u128;
    let referral_fee = protocol_fee * TIER_1_FEE_PERCENT as u128 / MAX_PERCENTAGE as u128;
    let total = amount_out - protocol_fee;
    let length = payments.len();
    dc.swap_dust_tokens(&pair, user_2, &payments, length, total, Some(tag.clone())).unwrap();
    dc.swap_dust_tokens(&pair, user_2, &payments, length, total, Some(tag.clone())).unwrap();
    dc.swap_dust_tokens(&pair, user_2, &payments, length, total, Some(tag.clone())).unwrap();

    assert_eq!(dc.referral.collected_tag_fees(&tag), referral_fee * 3);
    assert_eq!(dc.referral.accumulated_volume(&tag), amount_out * 3);

    let e = dc.referral.update_user_tier(&dc.access, user_1).unwrap_err();
    assert_eq!(e, Error::NoTierUpgradeFound);
    assert_eq!(e.message(), "No tier upgrade found");
}

#[test]
fn test_tier_with_0_fee() {
    let (mut dc, pair, bc) = setup();
    add_known_tokens(&mut dc, &bc, WRAPPED_TOKEN, vec![known_token_1(), known_token_2()]);
    dc.access.resume(OWNER).unwrap();

    let e = dc
        .referral
        .add_tier_details(&dc.access, OWNER, b"Bronze".to_vec(), 0, 500)
        .unwrap_err();
    assert_eq!(e, Error::TierAlreadyExists);
    assert_eq!(e.message(), "Tier already exists");
    dc.referral.remove_tier_details(&dc.access, OWNER, &b"Bronze".to_vec()).unwrap();

    dc.referral
        .add_tier_details(&dc.access, OWNER, b"Bronze".to_vec(), 500, TIER_1_FEE_PERCENT)
        .unwrap();
    dc.referral.add_tier_details(&dc.access, OWNER, b"Wood".to_vec(), 0, 0).unwrap();

    let user_1: u64 = 2;
    let tag = b"TEST5".to_vec();
    dc.referral.register_referral_tag(&dc.access, user_1, &tag).unwrap();

    assert_eq!(dc.referral.referral_tag_percent(&tag), 0);

    let token_amount: u128 = 3_000_000;
    let user_2: u64 = 3;
    let payments = vec![
        Payment::new(known_token_1(), 0, token_amount),
        Payment::new(known_token_2(), 0, token_amount),
    ];

    let amount_out = compute_token_out_amount(token_amount, &known_token_1())
        + compute_token_out_amount(token_amount, &known_token_2());
    let protocol_fee = amount_out * 500 / MAX_PERCENTAGE as u128;
    let total = amount_out - protocol_fee;
    let num = payments.len();
    dc.swap_dust_tokens(&pair, user_2, &payments, num, total, Some(tag.clone())).unwrap();

    assert_eq!(dc.referral.collected_tag_fees(&tag), 0);

    let name = dc.referral.update_user_tier(&dc.access, user_1).unwrap();
    assert_eq!(name, b"Bronze".to_vec());
    assert_eq!(dc.referral.referral_tag_percent(&tag), TIER_1_FEE_PERCENT);
}
