use amm_theory::token::{Token, User, order_token_reserves, order_tokens, token_eq, token_lt, user_eq};

fn atomic(sym: &str) -> Token {
    Token::Atomic(String::from(sym))
}

#[test]
fn mint_pairs_atomic_symbols() {
    let t0 = atomic("t0");
    let t1 = atomic("t1");
    let lp = Token::mint(&t0, &t1);
    match &lp {
        Token::Minted(a, b) => {
            assert_eq!(a, "t0");
            assert_eq!(b, "t1");
        },
        Token::Atomic(_) => panic!("mint must produce a minted token"),
    }
}

#[test]
fn mint_keeps_argument_order() {
    let t0 = atomic("t0");
    let t1 = atomic("t1");
    let lp = Token::mint(&t1, &t0);
    match &lp {
        Token::Minted(a, b) => {
            assert_eq!(a, "t1");
            assert_eq!(b, "t0");
        },
        Token::Atomic(_) => panic!("mint must produce a minted token"),
    }
}

#[test]
fn token_eq_compares_by_value() {
    let a = atomic("dai");
    let b = atomic("dai");
    let c = atomic("eth");
    assert!(token_eq(&a, &b));
    assert!(!token_eq(&a, &c));
    let lp = Token::mint(&a, &c);
    assert!(!token_eq(&a, &lp));
    let lp2 = Token::Minted(String::from("dai"), String::from("eth"));
    assert!(token_eq(&lp, &lp2));
}

#[test]
fn user_eq_compares_by_name() {
    let a = User::new("A");
    let a2 = User::new("A");
    let b = User::new("B");
    assert!(user_eq(&a, &a2));
    assert!(!user_eq(&a, &b));
    assert_eq!(a.name(), "A");
}

#[test]
fn token_order_is_lexicographic_on_atomics() {
    let dai = atomic("dai");
    let eth = atomic("eth");
    assert!(token_lt(&dai, &eth));
    assert!(!token_lt(&eth, &dai));
    assert!(!token_lt(&dai, &dai));
    let ab = atomic("ab");
    let abc = atomic("abc");
    assert!(token_lt(&ab, &abc));
    assert!(!token_lt(&abc, &ab));
}

#[test]
fn atomic_tokens_order_before_minted() {
    let zz = atomic("zz");
    let lp = Token::Minted(String::from("aa"), String::from("bb"));
    assert!(token_lt(&zz, &lp));
    assert!(!token_lt(&lp, &zz));
}

#[test]
fn minted_tokens_order_by_symbol_pair() {
    let ab = Token::Minted(String::from("a"), String::from("b"));
    let ac = Token::Minted(String::from("a"), String::from("c"));
    let ba = Token::Minted(String::from("b"), String::from("a"));
    assert!(token_lt(&ab, &ac));
    assert!(token_lt(&ab, &ba));
    assert!(!token_lt(&ba, &ab));
}

#[test]
fn order_tokens_sorts_a_pair() {
    let t0 = atomic("t0");
    let t1 = atomic("t1");
    let (a, b) = order_tokens(&t1, &t0);
    assert!(token_eq(a, &t0));
    assert!(token_eq(b, &t1));
    let (a, b) = order_tokens(&t0, &t1);
    assert!(token_eq(a, &t0));
    assert!(token_eq(b, &t1));
}

#[test]
fn order_token_reserves_keeps_amounts_with_tokens() {
    let t0 = atomic("t0");
    let t1 = atomic("t1");
    let (a, ra, b, rb) = order_token_reserves(&t1, 7, &t0, 13);
    assert!(token_eq(a, &t0));
    assert_eq!(ra, 13);
    assert!(token_eq(b, &t1));
    assert_eq!(rb, 7);
}
