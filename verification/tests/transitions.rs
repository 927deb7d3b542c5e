use amm_theory::state::State;
use amm_theory::token::{Token, User, token_eq};
use amm_theory::transition::{Deposit, Redeem, Swap, TransitionError};

fn atomic(sym: &str) -> Token {
    Token::Atomic(String::from(sym))
}

fn pair() -> (Token, Token) {
    (atomic("t0"), atomic("t1"))
}

#[test]
fn deposit_into_empty_state() {
    let (t0, t1) = pair();
    let a = User::new("A");
    let mut s = State::new();
    s.set_balance(&a, &t0, 150);
    s.set_balance(&a, &t1, 120);

    let s1 = Deposit::new(&a, 100, &t0, 100, &t1).apply(&s).unwrap();

    assert_eq!(s1.get_reserve(&t0, &t1), 100);
    assert_eq!(s1.get_reserve(&t1, &t0), 100);
    assert_eq!(s1.get_balance(&a, &t0), 50);
    assert_eq!(s1.get_balance(&a, &t1), 20);
    let lp = Token::mint(&t0, &t1);
    assert_eq!(s1.get_balance(&a, &lp), 200);
    assert_eq!(s1.token_supply(&lp), Some(200));
}

#[test]
fn deposit_mints_additively_on_top_of_existing_shares() {
    let (t0, t1) = pair();
    let a = User::new("A");
    let mut s = State::new();
    s.set_balance(&a, &t0, 100);
    s.set_balance(&a, &t1, 100);
    let s1 = Deposit::new(&a, 30, &t0, 30, &t1).apply(&s).unwrap();
    let s2 = Deposit::new(&a, 20, &t0, 10, &t1).apply(&s1).unwrap();
    let lp = Token::mint(&t0, &t1);
    assert_eq!(s2.get_balance(&a, &lp), 60 + 30);
    assert_eq!(s2.get_reserve(&t0, &t1), 50);
    assert_eq!(s2.get_reserve(&t1, &t0), 40);
}

#[test]
fn swap_constant_product() {
    let (t0, t1) = pair();
    let b = User::new("B");
    let mut s = State::new();
    s.set_reserve(&t0, 100, &t1, 100);
    s.set_balance(&b, &t0, 20);

    let s1 = Swap::new(&b, &t0, &t1, 20).apply(&s).unwrap();

    // K = 100 * 100 = 10000; the new t0 reserve is 120 and the new t1
    // reserve is 10000 / 120 = 83, truncating; B receives 100 - 83 = 17.
    assert_eq!(s1.get_reserve(&t0, &t1), 120);
    assert_eq!(s1.get_reserve(&t1, &t0), 83);
    assert_eq!(s1.get_balance(&b, &t0), 0);
    assert_eq!(s1.get_balance(&b, &t1), 17);
    let product = 120 * u128::from(s1.get_reserve(&t1, &t0));
    assert!(product <= 10000);
    assert!(10000 < 120 * (u128::from(s1.get_reserve(&t1, &t0)) + 1));
}

#[test]
fn swap_exact_division_preserves_product_exactly() {
    let (t0, t1) = pair();
    let b = User::new("B");
    let mut s = State::new();
    s.set_reserve(&t0, 100, &t1, 90);
    s.set_balance(&b, &t0, 80);
    let s1 = Swap::new(&b, &t0, &t1, 80).apply(&s).unwrap();
    // K = 9000, new reserves (180, 50): the division is exact.
    assert_eq!(s1.get_reserve(&t0, &t1), 180);
    assert_eq!(s1.get_reserve(&t1, &t0), 50);
    assert_eq!(s1.get_balance(&b, &t1), 40);
    assert_eq!(180 * 50, 100 * 90);
}

#[test]
fn redeem_all_shares_drains_the_pool() {
    let (t0, t1) = pair();
    let a = User::new("A");
    let mut s = State::new();
    s.set_balance(&a, &t0, 100);
    s.set_balance(&a, &t1, 100);
    let s1 = Deposit::new(&a, 100, &t0, 100, &t1).apply(&s).unwrap();
    let s2 = Redeem::new(&a, &t0, &t1, 200).apply(&s1).unwrap();

    let lp = Token::mint(&t0, &t1);
    assert_eq!(s2.get_reserve(&t0, &t1), 0);
    assert_eq!(s2.get_reserve(&t1, &t0), 0);
    assert_eq!(s2.token_supply(&lp), Some(0));
    assert_eq!(s2.get_balance(&a, &lp), 0);
    assert_eq!(s2.get_balance(&a, &t0), 100);
    assert_eq!(s2.get_balance(&a, &t1), 100);
}

#[test]
fn deposit_redeem_round_trip_restores_everything() {
    let (t0, t1) = pair();
    let a = User::new("A");
    let mut s = State::new();
    s.set_balance(&a, &t0, 150);
    s.set_balance(&a, &t1, 130);
    let s1 = Deposit::new(&a, 100, &t0, 30, &t1).apply(&s).unwrap();
    let s2 = Redeem::new(&a, &t0, &t1, 130).apply(&s1).unwrap();

    assert_eq!(s2.get_balance(&a, &t0), 150);
    assert_eq!(s2.get_balance(&a, &t1), 130);
    assert_eq!(s2.get_reserve(&t0, &t1), 0);
    assert_eq!(s2.get_reserve(&t1, &t0), 0);
    let lp = Token::mint(&t0, &t1);
    assert_eq!(s2.get_balance(&a, &lp), 0);
}

#[test]
fn atomic_supplies_are_conserved() {
    let (t0, t1) = pair();
    let a = User::new("A");
    let b = User::new("B");
    let mut s = State::new();
    s.set_balance(&a, &t0, 100);
    s.set_balance(&a, &t1, 100);
    s.set_balance(&b, &t0, 40);
    let lp = Token::mint(&t0, &t1);

    let supply_t0 = s.token_supply(&t0);
    let supply_t1 = s.token_supply(&t1);
    assert_eq!(supply_t0, Some(140));
    assert_eq!(supply_t1, Some(100));

    let s1 = Deposit::new(&a, 100, &t0, 100, &t1).apply(&s).unwrap();
    assert_eq!(s1.token_supply(&t0), supply_t0);
    assert_eq!(s1.token_supply(&t1), supply_t1);
    assert_eq!(s1.token_supply(&lp), Some(200));

    let s2 = Swap::new(&b, &t0, &t1, 40).apply(&s1).unwrap();
    assert_eq!(s2.token_supply(&t0), supply_t0);
    assert_eq!(s2.token_supply(&t1), supply_t1);
    assert_eq!(s2.token_supply(&lp), Some(200));

    let s3 = Redeem::new(&a, &t0, &t1, 50).apply(&s2).unwrap();
    assert_eq!(s3.token_supply(&t0), supply_t0);
    assert_eq!(s3.token_supply(&t1), supply_t1);
    assert_eq!(s3.token_supply(&lp), Some(150));
}

#[test]
fn queries_are_idempotent() {
    let (t0, t1) = pair();
    let a = User::new("A");
    let mut s = State::new();
    s.set_balance(&a, &t0, 55);
    s.set_reserve(&t0, 10, &t1, 20);

    assert_eq!(s.get_balance(&a, &t0), s.get_balance(&a, &t0));
    assert_eq!(s.get_reserve(&t0, &t1), s.get_reserve(&t0, &t1));
    assert_eq!(s.token_supply(&t0), s.token_supply(&t0));
    // the reads above changed nothing
    assert_eq!(s.get_balance(&a, &t0), 55);
    assert_eq!(s.get_reserve(&t0, &t1), 10);
    assert_eq!(s.get_reserve(&t1, &t0), 20);
    assert_eq!(s.token_supply(&t0), Some(65));
}

#[test]
fn failed_apply_leaves_the_state_alone() {
    let (t0, t1) = pair();
    let b = User::new("B");
    let mut s = State::new();
    s.set_balance(&b, &t0, 5);
    s.set_reserve(&t0, 100, &t1, 100);
    let r = Swap::new(&b, &t0, &t1, 20).apply(&s);
    assert_eq!(r.err(), Some(TransitionError::InsufficientBalance));
    assert_eq!(s.get_balance(&b, &t0), 5);
    assert_eq!(s.get_reserve(&t0, &t1), 100);
    assert_eq!(s.get_reserve(&t1, &t0), 100);
}

#[test]
fn deposit_rejects_zero_amounts() {
    let (t0, t1) = pair();
    let a = User::new("A");
    let mut s = State::new();
    s.set_balance(&a, &t0, 100);
    s.set_balance(&a, &t1, 100);
    let r = Deposit::new(&a, 0, &t0, 10, &t1).apply(&s);
    assert_eq!(r.err(), Some(TransitionError::InvalidDepositRatio));
    let r = Deposit::new(&a, 10, &t0, 0, &t1).apply(&s);
    assert_eq!(r.err(), Some(TransitionError::InvalidDepositRatio));
}

#[test]
fn deposit_rejects_unmintable_pairs() {
    let (t0, t1) = pair();
    let a = User::new("A");
    let s = State::new();
    let r = Deposit::new(&a, 10, &t0, 10, &t0).apply(&s);
    assert_eq!(r.err(), Some(TransitionError::InvalidMint));
    let lp = Token::mint(&t0, &t1);
    let r = Deposit::new(&a, 10, &lp, 10, &t1).apply(&s);
    assert_eq!(r.err(), Some(TransitionError::InvalidMint));
}

#[test]
fn deposit_rejects_overdraft() {
    let (t0, t1) = pair();
    let a = User::new("A");
    let mut s = State::new();
    s.set_balance(&a, &t0, 30);
    s.set_balance(&a, &t1, 100);
    let r = Deposit::new(&a, 40, &t0, 40, &t1).apply(&s);
    assert_eq!(r.err(), Some(TransitionError::InsufficientBalance));
}

#[test]
fn deposit_rejects_reserve_overflow() {
    let (t0, t1) = pair();
    let a = User::new("A");
    let mut s = State::new();
    s.set_balance(&a, &t0, 10);
    s.set_balance(&a, &t1, 10);
    s.set_reserve(&t0, u64::MAX, &t1, 50);
    let r = Deposit::new(&a, 1, &t0, 1, &t1).apply(&s);
    assert_eq!(r.err(), Some(TransitionError::Overflow));
}

#[test]
fn swap_rejects_missing_or_empty_pool() {
    let (t0, t1) = pair();
    let b = User::new("B");
    let mut s = State::new();
    s.set_balance(&b, &t0, 50);
    let r = Swap::new(&b, &t0, &t1, 20).apply(&s);
    assert_eq!(r.err(), Some(TransitionError::InsufficientReserves));
    s.set_reserve(&t0, 100, &t1, 0);
    let r = Swap::new(&b, &t0, &t1, 20).apply(&s);
    assert_eq!(r.err(), Some(TransitionError::InsufficientReserves));
}

#[test]
fn swap_rejects_zero_input() {
    let (t0, t1) = pair();
    let b = User::new("B");
    let mut s = State::new();
    s.set_balance(&b, &t0, 50);
    s.set_reserve(&t0, 100, &t1, 100);
    let r = Swap::new(&b, &t0, &t1, 0).apply(&s);
    assert_eq!(r.err(), Some(TransitionError::InsufficientReserves));
}

#[test]
fn redeem_rejects_zero_and_excessive_amounts() {
    let (t0, t1) = pair();
    let a = User::new("A");
    let mut s = State::new();
    s.set_balance(&a, &t0, 100);
    s.set_balance(&a, &t1, 100);
    let s1 = Deposit::new(&a, 100, &t0, 100, &t1).apply(&s).unwrap();
    let r = Redeem::new(&a, &t0, &t1, 0).apply(&s1);
    assert_eq!(r.err(), Some(TransitionError::InvalidRedeemAmount));
    let r = Redeem::new(&a, &t0, &t1, 201).apply(&s1);
    assert_eq!(r.err(), Some(TransitionError::InvalidRedeemAmount));
}

#[test]
fn redeem_rejects_zero_outstanding_supply() {
    let (t0, t1) = pair();
    let a = User::new("A");
    let s = State::new();
    let r = Redeem::new(&a, &t0, &t1, 5).apply(&s);
    assert_eq!(r.err(), Some(TransitionError::DegenerateSupply));
}

#[test]
fn redeem_rejects_shares_the_sender_does_not_hold() {
    let (t0, t1) = pair();
    let a = User::new("A");
    let b = User::new("B");
    let mut s = State::new();
    s.set_balance(&a, &t0, 100);
    s.set_balance(&a, &t1, 100);
    let s1 = Deposit::new(&a, 100, &t0, 100, &t1).apply(&s).unwrap();
    let r = Redeem::new(&b, &t0, &t1, 50).apply(&s1);
    assert_eq!(r.err(), Some(TransitionError::InsufficientBalance));
}

#[test]
fn redeem_rejects_unmintable_pairs() {
    let t0 = atomic("t0");
    let a = User::new("A");
    let s = State::new();
    let r = Redeem::new(&a, &t0, &t0, 5).apply(&s);
    assert_eq!(r.err(), Some(TransitionError::InvalidMint));
}

#[test]
fn redeem_pays_proportional_truncated_shares() {
    let (t0, t1) = pair();
    let a = User::new("A");
    let mut s = State::new();
    s.set_balance(&a, &t0, 100);
    s.set_balance(&a, &t1, 100);
    let s1 = Deposit::new(&a, 100, &t0, 100, &t1).apply(&s).unwrap();
    // 30 of 200 shares: each reserve pays 100 * 30 / 200 = 15, exactly.
    let s2 = Redeem::new(&a, &t0, &t1, 30).apply(&s1).unwrap();
    assert_eq!(s2.get_reserve(&t0, &t1), 85);
    assert_eq!(s2.get_reserve(&t1, &t0), 85);
    assert_eq!(s2.get_balance(&a, &t0), 15);
    assert_eq!(s2.get_balance(&a, &t1), 15);
    let lp = Token::mint(&t0, &t1);
    assert_eq!(s2.get_balance(&a, &lp), 170);
    // 7 of 170 shares: 85 * 7 / 170 = 3 (3.5 truncated).
    let s3 = Redeem::new(&a, &t0, &t1, 7).apply(&s2).unwrap();
    assert_eq!(s3.get_reserve(&t0, &t1), 82);
    assert_eq!(s3.get_balance(&a, &t0), 18);
}

#[test]
fn token_supply_reports_overflow() {
    let t0 = atomic("t0");
    let a = User::new("A");
    let b = User::new("B");
    let mut s = State::new();
    s.set_balance(&a, &t0, u64::MAX);
    s.set_balance(&b, &t0, 1);
    assert_eq!(s.token_supply(&t0), None);
}

#[test]
fn set_balance_overwrites_and_set_reserve_upserts() {
    let (t0, t1) = pair();
    let a = User::new("A");
    let mut s = State::new();
    s.set_balance(&a, &t0, 10);
    s.set_balance(&a, &t0, 3);
    assert_eq!(s.get_balance(&a, &t0), 3);
    s.set_reserve(&t0, 5, &t1, 6);
    s.set_reserve(&t1, 60, &t0, 50);
    assert_eq!(s.get_reserve(&t0, &t1), 50);
    assert_eq!(s.get_reserve(&t1, &t0), 60);
    assert_eq!(s.pool_count(), 1);
}

#[test]
fn absent_entries_read_as_zero() {
    let (t0, t1) = pair();
    let a = User::new("A");
    let s = State::new();
    assert_eq!(s.get_balance(&a, &t0), 0);
    assert_eq!(s.get_reserve(&t0, &t1), 0);
    assert_eq!(s.token_supply(&t0), Some(0));
}

#[test]
fn pools_store_their_pair_canonically() {
    let (t0, t1) = pair();
    let mut s = State::new();
    // written in reverse order; stored with t0 before t1
    s.set_reserve(&t1, 9, &t0, 4);
    assert_eq!(s.pool_count(), 1);
    let pool = s.pool_at(0);
    assert!(token_eq(pool.token0(), &t0));
    assert!(token_eq(pool.token1(), &t1));
    assert_eq!(pool.get_reserves(&t0), 4);
    assert_eq!(pool.get_reserves(&t1), 9);
}

#[test]
fn wallets_keep_first_write_order() {
    let (t0, t1) = pair();
    let a = User::new("A");
    let b = User::new("B");
    let mut s = State::new();
    s.set_balance(&b, &t0, 1);
    s.set_balance(&a, &t0, 2);
    s.set_balance(&b, &t1, 3);
    assert_eq!(s.wallet_count(), 2);
    assert_eq!(s.wallet_at(0).user().name(), "B");
    assert_eq!(s.wallet_at(1).user().name(), "A");
    let wb = s.wallet_at(0);
    assert_eq!(wb.entry_count(), 2);
    let (tok, v) = wb.entry_at(1);
    assert!(token_eq(tok, &t1));
    assert_eq!(v, 3);
    assert_eq!(wb.get_balance(&t0), 1);
}
