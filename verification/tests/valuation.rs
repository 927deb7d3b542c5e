use amm_theory::state::State;
use amm_theory::token::{Token, User};
use amm_theory::transition::{Deposit, Swap, TransitionError};
use amm_theory::valuation::{PriceTable, price_oracle};

fn atomic(sym: &str) -> Token {
    Token::Atomic(String::from(sym))
}

fn table_1000() -> PriceTable {
    let mut t = PriceTable::new();
    t.set_price("t0", 1000);
    t.set_price("t1", 1000);
    t
}

#[test]
fn price_table_sets_and_overwrites() {
    let mut t = PriceTable::new();
    assert_eq!(t.get_price("dai"), 0);
    t.set_price("dai", 7);
    t.set_price("eth", 2000);
    assert_eq!(t.get_price("dai"), 7);
    assert_eq!(t.get_price("eth"), 2000);
    t.set_price("dai", 9);
    assert_eq!(t.get_price("dai"), 9);
    assert_eq!(t.get_price("eth"), 2000);
}

#[test]
fn price_oracle_reads_atomic_prices_from_the_table() {
    let s = State::new();
    let table = table_1000();
    assert_eq!(price_oracle(&s, &table, &atomic("t0")), Ok(1000));
    assert_eq!(price_oracle(&s, &table, &atomic("unknown")), Ok(0));
}

#[test]
fn price_oracle_values_shares_by_their_claim() {
    let (t0, t1) = (atomic("t0"), atomic("t1"));
    let a = User::new("A");
    let mut s = State::new();
    s.set_balance(&a, &t0, 100);
    s.set_balance(&a, &t1, 100);
    let s1 = Deposit::new(&a, 100, &t0, 100, &t1).apply(&s).unwrap();
    let lp = Token::mint(&t0, &t1);
    // (1000*100 + 1000*100) / 200 outstanding shares
    assert_eq!(price_oracle(&s1, &table_1000(), &lp), Ok(1000));
}

#[test]
fn price_oracle_fails_on_zero_share_supply() {
    let s = State::new();
    let lp = Token::Minted(String::from("t0"), String::from("t1"));
    assert_eq!(
        price_oracle(&s, &table_1000(), &lp),
        Err(TransitionError::DegenerateSupply)
    );
}

#[test]
fn net_wealth_sums_prices_times_amounts() {
    let (t0, t1) = (atomic("t0"), atomic("t1"));
    let a = User::new("A");
    let b = User::new("B");
    let mut s = State::new();
    s.set_balance(&a, &t0, 100);
    s.set_balance(&a, &t1, 100);
    s.set_balance(&b, &t0, 20);
    let table = table_1000();
    assert_eq!(s.net_wealth(&table), Ok(220_000));
    assert_eq!(s.net_wealth_of(&a, &table), Ok(200_000));
    assert_eq!(s.net_wealth_of(&b, &table), Ok(20_000));
    let c = User::new("C");
    assert_eq!(s.net_wealth_of(&c, &table), Ok(0));
}

#[test]
fn net_wealth_is_conserved_by_deposit() {
    let (t0, t1) = (atomic("t0"), atomic("t1"));
    let a = User::new("A");
    let mut s = State::new();
    s.set_balance(&a, &t0, 100);
    s.set_balance(&a, &t1, 100);
    let table = table_1000();
    let before = s.net_wealth(&table).unwrap();
    let s1 = Deposit::new(&a, 100, &t0, 100, &t1).apply(&s).unwrap();
    // the deposit turns atomic holdings into shares of equal claim
    assert_eq!(s1.net_wealth(&table), Ok(before));
}

#[test]
fn net_wealth_moves_between_users_under_swaps() {
    let (t0, t1) = (atomic("t0"), atomic("t1"));
    let o = User::new("O");
    let b = User::new("B");
    let mut s = State::new();
    s.set_balance(&o, &t0, 100);
    s.set_balance(&o, &t1, 100);
    s.set_balance(&b, &t0, 20);
    let table = table_1000();
    let s1 = Deposit::new(&o, 100, &t0, 100, &t1).apply(&s).unwrap();
    let s2 = Swap::new(&b, &t0, &t1, 20).apply(&s1).unwrap();
    // B paid 20 of t0 (20000) and received 17 of t1 (17000)
    assert_eq!(s2.net_wealth_of(&b, &table), Ok(17_000));
    // O's shares now claim the whole pool of 120 + 83
    assert_eq!(s2.net_wealth_of(&o, &table), Ok(203_000));
}

#[test]
fn net_wealth_reports_an_undefined_share_price() {
    let a = User::new("A");
    let lp = Token::Minted(String::from("t0"), String::from("t1"));
    let mut s = State::new();
    // an entry of zero shares: the share price is still undefined,
    // because no shares are outstanding at all
    s.set_balance(&a, &lp, 0);
    assert_eq!(
        s.net_wealth(&table_1000()),
        Err(TransitionError::DegenerateSupply)
    );
}
