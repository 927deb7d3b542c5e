//! The ledger state: wallet balances and pool reserves.
//!
//! A `State` is a snapshot of the whole economy: a collection of wallets
//! (one per user, in first-write order) and a collection of pools (one per
//! unordered pair of distinct tokens, each pair stored in canonical token
//! order).  The accessors here read and write single balances and reserves;
//! an absent wallet, balance entry or pool reads as zero, and writing to an
//! absent one creates it.
//!
//! The mathematical model is three total functions over a state — `bal`,
//! `res` and `supply` — and the well-formedness predicate `wf`.  Every
//! accessor's contract describes its effect on all three functions at every
//! point, so callers can reason about a state without seeing its layout.

use vstd::prelude::*;
use crate::token::{
    Tok, Token, User, order_token_reserves, tok_lt, token_clone, token_eq, user_clone, user_eq,
};

verus! {

/// One entry of a wallet: an amount of a single token.
#[derive(Debug)]
pub struct Balance {
    pub(crate) token: Token,
    pub(crate) value: u64,
}

/// A user's holdings: at most one balance entry per distinct token.
#[derive(Debug)]
pub struct Wallet {
    pub(crate) user: User,
    pub(crate) balances: Vec<Balance>,
}

/// A liquidity pool: reserves for an unordered pair of distinct tokens,
/// stored with the tokens in canonical order.
#[derive(Debug)]
pub struct AMM {
    pub(crate) r0: u64,
    pub(crate) t0: Token,
    pub(crate) r1: u64,
    pub(crate) t1: Token,
}

/// A snapshot of the whole economy.
#[derive(Debug)]
pub struct State {
    pub(crate) wallets: Vec<Wallet>,
    pub(crate) amms: Vec<AMM>,
}

/// Whether a pool is the pool for the unordered pair `{x, y}`.
pub(crate) open spec fn amm_matches(a: AMM, x: Tok, y: Tok) -> bool {
    (a.t0@ == x && a.t1@ == y) || (a.t0@ == y && a.t1@ == x)
}

/// The pool's reserve of token `t` (zero if the pool does not hold `t`).
pub(crate) open spec fn amm_res(a: AMM, t: Tok) -> int {
    if a.t0@ == t {
        a.r0 as int
    } else if a.t1@ == t {
        a.r1 as int
    } else {
        0
    }
}

/// The balance of token `t` in a list of balance entries: the first entry
/// for `t`, or zero if there is none.
pub(crate) open spec fn wallet_bal(bs: Seq<Balance>, t: Tok) -> int
    decreases bs.len(),
{
    if bs.len() == 0 {
        0
    } else if bs[0].token@ == t {
        bs[0].value as int
    } else {
        wallet_bal(bs.drop_first(), t)
    }
}

/// The balance of token `t` held by user `u` in a list of wallets: read
/// from the first wallet owned by `u`, or zero if there is none.
pub(crate) open spec fn bal_in(ws: Seq<Wallet>, u: Seq<char>, t: Tok) -> int
    decreases ws.len(),
{
    if ws.len() == 0 {
        0
    } else if ws[0].user@ == u {
        wallet_bal(ws[0].balances@, t)
    } else {
        bal_in(ws.drop_first(), u, t)
    }
}

/// The reserve of token `x` in the first pool for the pair `{x, y}`, or
/// zero if there is no such pool.
pub(crate) open spec fn res_in(amms: Seq<AMM>, x: Tok, y: Tok) -> int
    decreases amms.len(),
{
    if amms.len() == 0 {
        0
    } else if amm_matches(amms[0], x, y) {
        if amms[0].t0@ == x {
            amms[0].r0 as int
        } else {
            amms[0].r1 as int
        }
    } else {
        res_in(amms.drop_first(), x, y)
    }
}

/// The total reserve of token `t` over a list of pools.
pub(crate) open spec fn sum_amms(amms: Seq<AMM>, t: Tok) -> int
    decreases amms.len(),
{
    if amms.len() == 0 {
        0
    } else {
        amm_res(amms[0], t) + sum_amms(amms.drop_first(), t)
    }
}

/// The total balance of token `t` over a list of wallets.
pub(crate) open spec fn sum_wallets(ws: Seq<Wallet>, t: Tok) -> int
    decreases ws.len(),
{
    if ws.len() == 0 {
        0
    } else {
        wallet_bal(ws[0].balances@, t) + sum_wallets(ws.drop_first(), t)
    }
}

/// At most one balance entry per distinct token.
pub(crate) open spec fn wf_balances(bs: Seq<Balance>) -> bool {
    forall|p: int, q: int|
        0 <= p < q < bs.len() ==> (#[trigger] bs[p]).token@ != (#[trigger] bs[q]).token@
}

/// One wallet per user, each with well-formed balances.
pub(crate) open spec fn wf_wallets(ws: Seq<Wallet>) -> bool {
    &&& forall|i: int| 0 <= i < ws.len() ==> wf_balances((#[trigger] ws[i]).balances@)
    &&& forall|i: int, j: int|
        0 <= i < j < ws.len() ==> (#[trigger] ws[i]).user@ != (#[trigger] ws[j]).user@
}

/// Pools pair distinct tokens in canonical order, one pool per unordered pair.
pub(crate) open spec fn wf_amms(amms: Seq<AMM>) -> bool {
    &&& forall|i: int|
        0 <= i < amms.len() ==> tok_lt((#[trigger] amms[i]).t0@, amms[i].t1@) && amms[i].t0@
            != amms[i].t1@
    &&& forall|i: int, j: int|
        0 <= i < j < amms.len() ==> !amm_matches(
            #[trigger] amms[i],
            (#[trigger] amms[j]).t0@,
            amms[j].t1@,
        )
}

impl Wallet {
    /// The owner's name.
    pub closed spec fn spec_user(self) -> Seq<char> {
        self.user@
    }

    /// The wallet's balance of token `t`.
    pub closed spec fn spec_balance(self, t: Tok) -> int {
        wallet_bal(self.balances@, t)
    }

    /// A fresh, empty wallet for `user`.
    pub fn new(user: &User) -> (w: Wallet)
        ensures
            w.spec_user() == user@,
            forall|t: Tok| #[trigger] w.spec_balance(t) == 0,
    {
        Wallet { user: user_clone(user), balances: Vec::new() }
    }

    /// The owner.
    pub fn user(&self) -> (u: &User)
        ensures
            u@ == self.spec_user(),
    {
        &self.user
    }

    /// How many balance entries the wallet holds.
    pub closed spec fn spec_entry_count(self) -> nat {
        self.balances@.len()
    }

    /// The token and amount of the entry at position `j`.
    pub closed spec fn spec_entry_at(self, j: int) -> (Tok, int) {
        (self.balances@[j].token@, self.balances@[j].value as int)
    }

    /// How many balance entries the wallet holds.
    pub fn entry_count(&self) -> (n: usize)
        ensures
            n == self.spec_entry_count(),
    {
        self.balances.len()
    }

    /// The token and amount of the entry at position `j`.
    pub fn entry_at(&self, j: usize) -> (r: (&Token, u64))
        requires
            j < self.spec_entry_count(),
        ensures
            r.0@ == self.spec_entry_at(j as int).0,
            r.1 == self.spec_entry_at(j as int).1,
    {
        (&self.balances[j].token, self.balances[j].value)
    }

    /// The wallet's balance of `token`, zero if it holds none.
    pub fn get_balance(&self, token: &Token) -> (r: u64)
        ensures
            r as int == self.spec_balance(token@),
    {
        let n = self.balances.len();
        let mut i: usize = 0;
        proof {
            assert(self.balances@.skip(0) =~= self.balances@);
        }
        while i < n
            invariant
                i <= n,
                n == self.balances@.len(),
                wallet_bal(self.balances@, token@) == wallet_bal(
                    self.balances@.skip(i as int),
                    token@,
                ),
            decreases n - i,
        {
            if token_eq(&self.balances[i].token, token) {
                return self.balances[i].value;
            }
            proof {
                assert(self.balances@.skip(i as int).drop_first() =~= self.balances@.skip(i + 1));
            }
            i = i + 1;
        }
        0
    }
}

impl AMM {
    /// The pool's first token, in canonical order.
    pub closed spec fn spec_token0(self) -> Tok {
        self.t0@
    }

    /// The pool's second token, in canonical order.
    pub closed spec fn spec_token1(self) -> Tok {
        self.t1@
    }

    /// The pool's reserve of token `t`, zero if the pool does not hold `t`.
    pub closed spec fn spec_reserve(self, t: Tok) -> int {
        amm_res(self, t)
    }

    /// A pool over a canonically ordered pair of distinct tokens.
    pub fn new(r0: u64, t0: &Token, r1: u64, t1: &Token) -> (a: AMM)
        requires
            tok_lt(t0@, t1@),
            t0@ != t1@,
        ensures
            a.spec_token0() == t0@,
            a.spec_token1() == t1@,
            a.spec_reserve(t0@) == r0,
            a.spec_reserve(t1@) == r1,
    {
        AMM { r0, t0: token_clone(t0), r1, t1: token_clone(t1) }
    }

    /// The pool's first token, in canonical order.
    pub fn token0(&self) -> (t: &Token)
        ensures
            t@ == self.spec_token0(),
    {
        &self.t0
    }

    /// The pool's second token, in canonical order.
    pub fn token1(&self) -> (t: &Token)
        ensures
            t@ == self.spec_token1(),
    {
        &self.t1
    }

    /// The pool's reserve of `t`, zero if the pool does not hold `t`.
    pub fn get_reserves(&self, t: &Token) -> (r: u64)
        ensures
            r as int == self.spec_reserve(t@),
    {
        if token_eq(&self.t0, t) {
            self.r0
        } else if token_eq(&self.t1, t) {
            self.r1
        } else {
            0
        }
    }
}

/// First index owned by `user`, scanning from the front.
fn find_wallet(wallets: &Vec<Wallet>, user: &User) -> (r: Option<usize>)
    ensures
        match r {
            Some(i) => i < wallets@.len() && wallets@[i as int].user@ == user@ && forall|j: int|
                0 <= j < i ==> (#[trigger] wallets@[j]).user@ != user@,
            None => forall|j: int|
                0 <= j < wallets@.len() ==> (#[trigger] wallets@[j]).user@ != user@,
        },
{
    let n = wallets.len();
    let mut i: usize = 0;
    while i < n
        invariant
            i <= n,
            n == wallets@.len(),
            forall|j: int| 0 <= j < i ==> (#[trigger] wallets@[j]).user@ != user@,
        decreases n - i,
    {
        if user_eq(&wallets[i].user, user) {
            return Some(i);
        }
        i = i + 1;
    }
    None
}

/// First index holding `token`, scanning from the front.
fn find_balance(bals: &Vec<Balance>, token: &Token) -> (r: Option<usize>)
    ensures
        match r {
            Some(j) => j < bals@.len() && bals@[j as int].token@ == token@ && forall|p: int|
                0 <= p < j ==> (#[trigger] bals@[p]).token@ != token@,
            None => forall|p: int|
                0 <= p < bals@.len() ==> (#[trigger] bals@[p]).token@ != token@,
        },
{
    let n = bals.len();
    let mut j: usize = 0;
    while j < n
        invariant
            j <= n,
            n == bals@.len(),
            forall|p: int| 0 <= p < j ==> (#[trigger] bals@[p]).token@ != token@,
        decreases n - j,
    {
        if token_eq(&bals[j].token, token) {
            return Some(j);
        }
        j = j + 1;
    }
    None
}

/// First index of a pool for the unordered pair `{t0, t1}`.
fn find_amm(amms: &Vec<AMM>, t0: &Token, t1: &Token) -> (r: Option<usize>)
    ensures
        match r {
            Some(i) => i < amms@.len() && amm_matches(amms@[i as int], t0@, t1@) && forall|j: int|
                0 <= j < i ==> !amm_matches(#[trigger] amms@[j], t0@, t1@),
            None => forall|j: int|
                0 <= j < amms@.len() ==> !amm_matches(#[trigger] amms@[j], t0@, t1@),
        },
{
    let n = amms.len();
    let mut i: usize = 0;
    while i < n
        invariant
            i <= n,
            n == amms@.len(),
            forall|j: int| 0 <= j < i ==> !amm_matches(#[trigger] amms@[j], t0@, t1@),
        decreases n - i,
    {
        let a = &amms[i];
        if (token_eq(&a.t0, t0) && token_eq(&a.t1, t1)) || (token_eq(&a.t0, t1) && token_eq(
            &a.t1,
            t0,
        )) {
            return Some(i);
        }
        i = i + 1;
    }
    None
}

/// Searching below the first match leaves the result unchanged.
proof fn lemma_bal_in_from(ws: Seq<Wallet>, u: Seq<char>, t: Tok, i: int)
    requires
        0 <= i <= ws.len(),
        forall|j: int| 0 <= j < i ==> (#[trigger] ws[j]).user@ != u,
    ensures
        bal_in(ws, u, t) == bal_in(ws.skip(i), u, t),
    decreases i,
{
    if i > 0 {
        lemma_bal_in_from(ws.drop_first(), u, t, i - 1);
        assert(forall|j: int|
            0 <= j < i - 1 ==> ws.drop_first()[j] == #[trigger] ws[j + 1]);
        assert(ws.drop_first().skip(i - 1) =~= ws.skip(i));
    } else {
        assert(ws.skip(0) =~= ws);
    }
}

proof fn lemma_wallet_bal_from(bs: Seq<Balance>, t: Tok, j: int)
    requires
        0 <= j <= bs.len(),
        forall|p: int| 0 <= p < j ==> (#[trigger] bs[p]).token@ != t,
    ensures
        wallet_bal(bs, t) == wallet_bal(bs.skip(j), t),
    decreases j,
{
    if j > 0 {
        lemma_wallet_bal_from(bs.drop_first(), t, j - 1);
        assert(forall|p: int|
            0 <= p < j - 1 ==> bs.drop_first()[p] == #[trigger] bs[p + 1]);
        assert(bs.drop_first().skip(j - 1) =~= bs.skip(j));
    } else {
        assert(bs.skip(0) =~= bs);
    }
}

proof fn lemma_res_in_from(amms: Seq<AMM>, x: Tok, y: Tok, i: int)
    requires
        0 <= i <= amms.len(),
        forall|j: int| 0 <= j < i ==> !amm_matches(#[trigger] amms[j], x, y),
    ensures
        res_in(amms, x, y) == res_in(amms.skip(i), x, y),
    decreases i,
{
    if i > 0 {
        lemma_res_in_from(amms.drop_first(), x, y, i - 1);
        assert(forall|j: int|
            0 <= j < i - 1 ==> amms.drop_first()[j] == #[trigger] amms[j + 1]);
        assert(amms.drop_first().skip(i - 1) =~= amms.skip(i));
    } else {
        assert(amms.skip(0) =~= amms);
    }
}

/// Overwriting the first entry for a token rewrites exactly that token's
/// balance.
proof fn lemma_wallet_bal_update(bs: Seq<Balance>, j: int, b2: Balance, t: Tok)
    requires
        0 <= j < bs.len(),
        forall|p: int| 0 <= p < j ==> (#[trigger] bs[p]).token@ != bs[j].token@,
        b2.token@ == bs[j].token@,
    ensures
        wallet_bal(bs.update(j, b2), t) == if t == bs[j].token@ {
            b2.value as int
        } else {
            wallet_bal(bs, t)
        },
    decreases j,
{
    let bs2 = bs.update(j, b2);
    if j == 0 {
        if t != bs[0].token@ {
            assert(bs2.drop_first() =~= bs.drop_first());
        }
    } else {
        assert(bs2[0] == bs[0]);
        if bs[0].token@ == t {
        } else {
            assert(bs2.drop_first() =~= bs.drop_first().update(j - 1, b2));
            assert(forall|p: int|
                0 <= p < j - 1 ==> bs.drop_first()[p] == #[trigger] bs[p + 1]);
            assert(bs.drop_first()[j - 1] == bs[j]);
            lemma_wallet_bal_update(bs.drop_first(), j - 1, b2, t);
        }
    }
}

/// Appending an entry for a token the wallet does not hold sets exactly
/// that token's balance.
proof fn lemma_wallet_bal_push(bs: Seq<Balance>, b2: Balance, t: Tok)
    requires
        forall|p: int| 0 <= p < bs.len() ==> (#[trigger] bs[p]).token@ != b2.token@,
    ensures
        wallet_bal(bs.push(b2), t) == if t == b2.token@ {
            b2.value as int
        } else {
            wallet_bal(bs, t)
        },
    decreases bs.len(),
{
    let bs2 = bs.push(b2);
    assert(bs2.len() == bs.len() + 1);
    if bs.len() == 0 {
        assert(bs2[0] == b2);
        assert(bs2.drop_first() =~= Seq::<Balance>::empty());
        assert(wallet_bal(bs2.drop_first(), t) == 0);
        assert(wallet_bal(bs2, t) == if t == b2.token@ { b2.value as int } else { 0 });
        assert(wallet_bal(bs, t) == 0);
    } else {
        assert(bs2[0] == bs[0]);
        if bs[0].token@ == t {
        } else {
            assert(bs2.drop_first() =~= bs.drop_first().push(b2));
            assert(forall|p: int|
                0 <= p < bs.len() - 1 ==> bs.drop_first()[p] == #[trigger] bs[p + 1]);
            lemma_wallet_bal_push(bs.drop_first(), b2, t);
        }
    }
}

/// Replacing the first wallet of a user with one owned by the same user
/// rewrites exactly that user's balances.
proof fn lemma_bal_in_update(ws: Seq<Wallet>, i: int, w2: Wallet, u: Seq<char>, t: Tok)
    requires
        0 <= i < ws.len(),
        forall|j: int| 0 <= j < i ==> (#[trigger] ws[j]).user@ != ws[i].user@,
        w2.user@ == ws[i].user@,
    ensures
        bal_in(ws.update(i, w2), u, t) == if u == ws[i].user@ {
            wallet_bal(w2.balances@, t)
        } else {
            bal_in(ws, u, t)
        },
    decreases i,
{
    let ws2 = ws.update(i, w2);
    if i == 0 {
        if u != ws[0].user@ {
            assert(ws2.drop_first() =~= ws.drop_first());
        }
    } else {
        assert(ws2[0] == ws[0]);
        if ws[0].user@ == u {
        } else {
            assert(ws2.drop_first() =~= ws.drop_first().update(i - 1, w2));
            assert(forall|j: int|
                0 <= j < i - 1 ==> ws.drop_first()[j] == #[trigger] ws[j + 1]);
            assert(ws.drop_first()[i - 1] == ws[i]);
            lemma_bal_in_update(ws.drop_first(), i - 1, w2, u, t);
        }
    }
}

/// Appending a wallet for a new user sets exactly that user's balances.
proof fn lemma_bal_in_push(ws: Seq<Wallet>, w2: Wallet, u: Seq<char>, t: Tok)
    requires
        forall|j: int| 0 <= j < ws.len() ==> (#[trigger] ws[j]).user@ != w2.user@,
    ensures
        bal_in(ws.push(w2), u, t) == if u == w2.user@ {
            wallet_bal(w2.balances@, t)
        } else {
            bal_in(ws, u, t)
        },
    decreases ws.len(),
{
    let ws2 = ws.push(w2);
    assert(ws2.len() == ws.len() + 1);
    if ws.len() == 0 {
        assert(ws2[0] == w2);
        assert(ws2.drop_first() =~= Seq::<Wallet>::empty());
        assert(bal_in(ws2.drop_first(), u, t) == 0);
        assert(bal_in(ws, u, t) == 0);
    } else {
        assert(ws2[0] == ws[0]);
        if ws[0].user@ == u {
        } else {
            assert(ws2.drop_first() =~= ws.drop_first().push(w2));
            assert(forall|j: int|
                0 <= j < ws.len() - 1 ==> ws.drop_first()[j] == #[trigger] ws[j + 1]);
            lemma_bal_in_push(ws.drop_first(), w2, u, t);
        }
    }
}

/// Replacing one wallet shifts the total balance by the difference of that
/// wallet's balances.
proof fn lemma_sum_wallets_update(ws: Seq<Wallet>, i: int, w2: Wallet, t: Tok)
    requires
        0 <= i < ws.len(),
    ensures
        sum_wallets(ws.update(i, w2), t) == sum_wallets(ws, t) - wallet_bal(
            ws[i].balances@,
            t,
        ) + wallet_bal(w2.balances@, t),
    decreases i,
{
    let ws2 = ws.update(i, w2);
    if i == 0 {
        assert(ws2.drop_first() =~= ws.drop_first());
    } else {
        assert(ws2[0] == ws[0]);
        assert(ws2.drop_first() =~= ws.drop_first().update(i - 1, w2));
        assert(ws.drop_first()[i - 1] == ws[i]);
        lemma_sum_wallets_update(ws.drop_first(), i - 1, w2, t);
    }
}

/// Appending a wallet adds its balances to the total.
proof fn lemma_sum_wallets_push(ws: Seq<Wallet>, w2: Wallet, t: Tok)
    ensures
        sum_wallets(ws.push(w2), t) == sum_wallets(ws, t) + wallet_bal(w2.balances@, t),
    decreases ws.len(),
{
    let ws2 = ws.push(w2);
    assert(ws2.len() == ws.len() + 1);
    if ws.len() == 0 {
        assert(ws2[0] == w2);
        assert(ws2.drop_first() =~= Seq::<Wallet>::empty());
        assert(sum_wallets(ws2.drop_first(), t) == 0);
        assert(sum_wallets(ws, t) == 0);
    } else {
        assert(ws2[0] == ws[0]);
        assert(ws2.drop_first() =~= ws.drop_first().push(w2));
        lemma_sum_wallets_push(ws.drop_first(), w2, t);
    }
}

/// Overwriting the reserves of the first pool for a pair rewrites exactly
/// that pair's reserves.
proof fn lemma_res_in_update(amms: Seq<AMM>, i: int, a2: AMM, x: Tok, y: Tok)
    requires
        0 <= i < amms.len(),
        forall|j: int| 0 <= j < i ==> !amm_matches(#[trigger] amms[j], amms[i].t0@, amms[i].t1@),
        a2.t0@ == amms[i].t0@,
        a2.t1@ == amms[i].t1@,
    ensures
        res_in(amms.update(i, a2), x, y) == if amm_matches(amms[i], x, y) {
            if a2.t0@ == x {
                a2.r0 as int
            } else {
                a2.r1 as int
            }
        } else {
            res_in(amms, x, y)
        },
    decreases i,
{
    let as2 = amms.update(i, a2);
    if i == 0 {
        if !amm_matches(amms[0], x, y) {
            assert(as2.drop_first() =~= amms.drop_first());
        }
    } else {
        assert(as2[0] == amms[0]);
        if amm_matches(amms[0], x, y) {
            assert(!amm_matches(amms[i], x, y));
        } else {
            assert(as2.drop_first() =~= amms.drop_first().update(i - 1, a2));
            assert(forall|j: int|
                0 <= j < i - 1 ==> amms.drop_first()[j] == #[trigger] amms[j + 1]);
            assert(amms.drop_first()[i - 1] == amms[i]);
            lemma_res_in_update(amms.drop_first(), i - 1, a2, x, y);
        }
    }
}

/// Appending a pool for a pair that has none sets exactly that pair's
/// reserves.
proof fn lemma_res_in_push(amms: Seq<AMM>, a2: AMM, x: Tok, y: Tok)
    requires
        forall|j: int| 0 <= j < amms.len() ==> !amm_matches(#[trigger] amms[j], a2.t0@, a2.t1@),
    ensures
        res_in(amms.push(a2), x, y) == if amm_matches(a2, x, y) {
            if a2.t0@ == x {
                a2.r0 as int
            } else {
                a2.r1 as int
            }
        } else {
            res_in(amms, x, y)
        },
    decreases amms.len(),
{
    let as2 = amms.push(a2);
    assert(as2.len() == amms.len() + 1);
    if amms.len() == 0 {
        assert(as2[0] == a2);
        assert(as2.drop_first() =~= Seq::<AMM>::empty());
        assert(res_in(as2.drop_first(), x, y) == 0);
        assert(res_in(amms, x, y) == 0);
    } else {
        assert(as2[0] == amms[0]);
        if amm_matches(amms[0], x, y) {
            assert(!amm_matches(a2, x, y));
        } else {
            assert(as2.drop_first() =~= amms.drop_first().push(a2));
            assert(forall|j: int|
                0 <= j < amms.len() - 1 ==> amms.drop_first()[j] == #[trigger] amms[j + 1]);
            lemma_res_in_push(amms.drop_first(), a2, x, y);
        }
    }
}

/// Replacing one pool shifts the total reserve by the difference of that
/// pool's reserves.
proof fn lemma_sum_amms_update(amms: Seq<AMM>, i: int, a2: AMM, t: Tok)
    requires
        0 <= i < amms.len(),
    ensures
        sum_amms(amms.update(i, a2), t) == sum_amms(amms, t) - amm_res(amms[i], t) + amm_res(
            a2,
            t,
        ),
    decreases i,
{
    let as2 = amms.update(i, a2);
    if i == 0 {
        assert(as2.drop_first() =~= amms.drop_first());
    } else {
        assert(as2[0] == amms[0]);
        assert(as2.drop_first() =~= amms.drop_first().update(i - 1, a2));
        assert(amms.drop_first()[i - 1] == amms[i]);
        lemma_sum_amms_update(amms.drop_first(), i - 1, a2, t);
    }
}

/// Appending a pool adds its reserves to the total.
proof fn lemma_sum_amms_push(amms: Seq<AMM>, a2: AMM, t: Tok)
    ensures
        sum_amms(amms.push(a2), t) == sum_amms(amms, t) + amm_res(a2, t),
    decreases amms.len(),
{
    let as2 = amms.push(a2);
    assert(as2.len() == amms.len() + 1);
    if amms.len() == 0 {
        assert(as2[0] == a2);
        assert(as2.drop_first() =~= Seq::<AMM>::empty());
        assert(sum_amms(as2.drop_first(), t) == 0);
        assert(sum_amms(amms, t) == 0);
    } else {
        assert(as2[0] == amms[0]);
        assert(as2.drop_first() =~= amms.drop_first().push(a2));
        lemma_sum_amms_push(amms.drop_first(), a2, t);
    }
}

/// A wallet's balance of any token is non-negative.
proof fn lemma_wallet_bal_nonneg(bs: Seq<Balance>, t: Tok)
    ensures
        0 <= wallet_bal(bs, t),
    decreases bs.len(),
{
    if bs.len() > 0 && bs[0].token@ != t {
        lemma_wallet_bal_nonneg(bs.drop_first(), t);
    }
}

proof fn lemma_bal_in_nonneg(ws: Seq<Wallet>, u: Seq<char>, t: Tok)
    ensures
        0 <= bal_in(ws, u, t),
    decreases ws.len(),
{
    if ws.len() > 0 {
        if ws[0].user@ == u {
            lemma_wallet_bal_nonneg(ws[0].balances@, t);
        } else {
            lemma_bal_in_nonneg(ws.drop_first(), u, t);
        }
    }
}

proof fn lemma_res_in_nonneg(amms: Seq<AMM>, x: Tok, y: Tok)
    ensures
        0 <= res_in(amms, x, y),
    decreases amms.len(),
{
    if amms.len() > 0 && !amm_matches(amms[0], x, y) {
        lemma_res_in_nonneg(amms.drop_first(), x, y);
    }
}

proof fn lemma_sum_amms_nonneg(amms: Seq<AMM>, t: Tok)
    ensures
        0 <= sum_amms(amms, t),
    decreases amms.len(),
{
    if amms.len() > 0 {
        lemma_sum_amms_nonneg(amms.drop_first(), t);
    }
}

proof fn lemma_sum_wallets_nonneg(ws: Seq<Wallet>, t: Tok)
    ensures
        0 <= sum_wallets(ws, t),
    decreases ws.len(),
{
    if ws.len() > 0 {
        lemma_wallet_bal_nonneg(ws[0].balances@, t);
        lemma_sum_wallets_nonneg(ws.drop_first(), t);
    }
}

/// In a well-formed pool list no pool pairs a token with itself.
proof fn lemma_res_in_self(amms: Seq<AMM>, t: Tok)
    requires
        wf_amms(amms),
    ensures
        res_in(amms, t, t) == 0,
    decreases amms.len(),
{
    if amms.len() > 0 {
        assert(amms[0].t0@ != amms[0].t1@);
        assert(!amm_matches(amms[0], t, t));
        assert(forall|j: int|
            0 <= j < amms.len() - 1 ==> amms.drop_first()[j] == #[trigger] amms[j + 1]);
        lemma_res_in_self(amms.drop_first(), t);
    }
}

/// At the first wallet of a user, the search yields that wallet's balance.
proof fn lemma_bal_in_found(ws: Seq<Wallet>, u: Seq<char>, t: Tok, i: int)
    requires
        0 <= i < ws.len(),
        ws[i].user@ == u,
        forall|j: int| 0 <= j < i ==> (#[trigger] ws[j]).user@ != u,
    ensures
        bal_in(ws, u, t) == wallet_bal(ws[i].balances@, t),
{
    lemma_bal_in_from(ws, u, t, i);
    assert(ws.skip(i).len() == ws.len() - i);
    assert(ws.skip(i)[0] == ws[i]);
}

/// With no wallet for the user, the balance reads as zero.
proof fn lemma_bal_in_absent(ws: Seq<Wallet>, u: Seq<char>, t: Tok)
    requires
        forall|j: int| 0 <= j < ws.len() ==> (#[trigger] ws[j]).user@ != u,
    ensures
        bal_in(ws, u, t) == 0,
{
    lemma_bal_in_from(ws, u, t, ws.len() as int);
    assert(ws.skip(ws.len() as int) =~= Seq::<Wallet>::empty());
}

/// At the first pool for a pair, the search yields that pool's reserve.
proof fn lemma_res_in_found(amms: Seq<AMM>, x: Tok, y: Tok, i: int)
    requires
        0 <= i < amms.len(),
        amm_matches(amms[i], x, y),
        forall|j: int| 0 <= j < i ==> !amm_matches(#[trigger] amms[j], x, y),
    ensures
        res_in(amms, x, y) == if amms[i].t0@ == x {
            amms[i].r0 as int
        } else {
            amms[i].r1 as int
        },
{
    lemma_res_in_from(amms, x, y, i);
    assert(amms.skip(i).len() == amms.len() - i);
    assert(amms.skip(i)[0] == amms[i]);
}

/// With no pool for the pair, the reserve reads as zero.
proof fn lemma_res_in_absent(amms: Seq<AMM>, x: Tok, y: Tok)
    requires
        forall|j: int| 0 <= j < amms.len() ==> !amm_matches(#[trigger] amms[j], x, y),
    ensures
        res_in(amms, x, y) == 0,
{
    lemma_res_in_from(amms, x, y, amms.len() as int);
    assert(amms.skip(amms.len() as int) =~= Seq::<AMM>::empty());
}

/// Two wallets that agree on their owner and on every balance entry.
pub(crate) open spec fn wallet_like(a: Wallet, b: Wallet) -> bool {
    a.user@ == b.user@ && a.balances@ == b.balances@
}

/// Two wallet lists that agree pointwise.
pub(crate) open spec fn wallets_like(a: Seq<Wallet>, b: Seq<Wallet>) -> bool {
    a.len() == b.len() && forall|i: int|
        #![trigger a[i]]
        #![trigger b[i]]
        0 <= i < a.len() ==> wallet_like(a[i], b[i])
}

proof fn lemma_like_tails(a: Seq<Wallet>, b: Seq<Wallet>)
    requires
        wallets_like(a, b),
        a.len() > 0,
    ensures
        wallets_like(a.drop_first(), b.drop_first()),
{
    assert forall|k: int|
        0 <= k < a.drop_first().len() implies wallet_like(
        #[trigger] a.drop_first()[k],
        b.drop_first()[k],
    ) by {
        assert(a.drop_first()[k] == a[k + 1]);
        assert(b.drop_first()[k] == b[k + 1]);
    }
}

proof fn lemma_bal_in_like(a: Seq<Wallet>, b: Seq<Wallet>, u: Seq<char>, t: Tok)
    requires
        wallets_like(a, b),
    ensures
        bal_in(a, u, t) == bal_in(b, u, t),
    decreases a.len(),
{
    if a.len() > 0 {
        assert(wallet_like(a[0], b[0]));
        if a[0].user@ != u {
            lemma_like_tails(a, b);
            lemma_bal_in_like(a.drop_first(), b.drop_first(), u, t);
        }
    }
}

proof fn lemma_sum_wallets_like(a: Seq<Wallet>, b: Seq<Wallet>, t: Tok)
    requires
        wallets_like(a, b),
    ensures
        sum_wallets(a, t) == sum_wallets(b, t),
    decreases a.len(),
{
    if a.len() > 0 {
        assert(wallet_like(a[0], b[0]));
        lemma_like_tails(a, b);
        lemma_sum_wallets_like(a.drop_first(), b.drop_first(), t);
    }
}

proof fn lemma_wf_wallets_like(a: Seq<Wallet>, b: Seq<Wallet>)
    requires
        wallets_like(a, b),
    ensures
        wf_wallets(a) == wf_wallets(b),
{
    if wf_wallets(a) {
        assert forall|i: int| 0 <= i < b.len() implies wf_balances(
            (#[trigger] b[i]).balances@,
        ) by {
            assert(wallet_like(a[i], b[i]));
        }
        assert forall|i: int, j: int| 0 <= i < j < b.len() implies (#[trigger] b[i]).user@ != (
        #[trigger] b[j]).user@ by {
            assert(wallet_like(a[i], b[i]));
            assert(wallet_like(a[j], b[j]));
        }
        assert(wf_wallets(b));
    }
    if wf_wallets(b) {
        assert forall|i: int| 0 <= i < a.len() implies wf_balances(
            (#[trigger] a[i]).balances@,
        ) by {
            assert(wallet_like(a[i], b[i]));
        }
        assert forall|i: int, j: int| 0 <= i < j < a.len() implies (#[trigger] a[i]).user@ != (
        #[trigger] a[j]).user@ by {
            assert(wallet_like(a[i], b[i]));
            assert(wallet_like(a[j], b[j]));
        }
        assert(wf_wallets(a));
    }
}

/// An element-by-element copy of a balance list.
fn clone_balances(bs: &Vec<Balance>) -> (r: Vec<Balance>)
    ensures
        r@ == bs@,
{
    let n = bs.len();
    let mut r: Vec<Balance> = Vec::new();
    let mut i: usize = 0;
    while i < n
        invariant
            i <= n,
            n == bs@.len(),
            r@.len() == i,
            forall|k: int| 0 <= k < i ==> #[trigger] r@[k] == bs@[k],
        decreases n - i,
    {
        r.push(Balance { token: token_clone(&bs[i].token), value: bs[i].value });
        i = i + 1;
    }
    proof {
        assert(r@ =~= bs@);
    }
    r
}

/// An element-by-element copy of a wallet list.
fn clone_wallets(ws: &Vec<Wallet>) -> (r: Vec<Wallet>)
    ensures
        wallets_like(ws@, r@),
{
    let n = ws.len();
    let mut r: Vec<Wallet> = Vec::new();
    let mut i: usize = 0;
    while i < n
        invariant
            i <= n,
            n == ws@.len(),
            r@.len() == i,
            forall|k: int|
                #![trigger r@[k]]
                0 <= k < i ==> wallet_like(ws@[k], r@[k]),
        decreases n - i,
    {
        r.push(
            Wallet { user: user_clone(&ws[i].user), balances: clone_balances(&ws[i].balances) },
        );
        i = i + 1;
    }
    r
}

/// An element-by-element copy of a pool list.
fn clone_amms(amms: &Vec<AMM>) -> (r: Vec<AMM>)
    ensures
        r@ == amms@,
{
    let n = amms.len();
    let mut r: Vec<AMM> = Vec::new();
    let mut i: usize = 0;
    while i < n
        invariant
            i <= n,
            n == amms@.len(),
            r@.len() == i,
            forall|k: int| 0 <= k < i ==> #[trigger] r@[k] == amms@[k],
        decreases n - i,
    {
        let a = &amms[i];
        r.push(AMM { r0: a.r0, t0: token_clone(&a.t0), r1: a.r1, t1: token_clone(&a.t1) });
        i = i + 1;
    }
    proof {
        assert(r@ =~= amms@);
    }
    r
}

/// No balance, reserve or supply of any state is ever negative: amounts are
/// unsigned, and a transition that would need a negative result fails with a
/// typed error instead.
pub proof fn lemma_state_nonneg(s: State)
    ensures
        forall|u: Seq<char>, t: Tok| 0 <= #[trigger] s.bal(u, t),
        forall|x: Tok, y: Tok| 0 <= #[trigger] s.res(x, y),
        forall|t: Tok| 0 <= #[trigger] s.supply(t),
{
    assert forall|u: Seq<char>, t: Tok| 0 <= #[trigger] s.bal(u, t) by {
        lemma_bal_in_nonneg(s.wallets@, u, t);
    }
    assert forall|x: Tok, y: Tok| 0 <= #[trigger] s.res(x, y) by {
        lemma_res_in_nonneg(s.amms@, x, y);
    }
    assert forall|t: Tok| 0 <= #[trigger] s.supply(t) by {
        lemma_sum_amms_nonneg(s.amms@, t);
        lemma_sum_wallets_nonneg(s.wallets@, t);
    }
}

/// In a well-formed state no pool pairs a token with itself, so the reserve
/// of a token "against itself" always reads as zero.
pub proof fn lemma_res_self_zero(s: State, t: Tok)
    requires
        s.wf(),
    ensures
        s.res(t, t) == 0,
{
    lemma_res_in_self(s.amms@, t);
}

impl State {
    /// The balance of token `t` held by user `u`; zero for an absent user
    /// or entry.
    pub closed spec fn bal(self, u: Seq<char>, t: Tok) -> int {
        bal_in(self.wallets@, u, t)
    }

    /// The reserve of token `x` in the pool for the pair `{x, y}`; zero if
    /// no such pool exists.
    pub closed spec fn res(self, x: Tok, y: Tok) -> int {
        res_in(self.amms@, x, y)
    }

    /// The supply of token `t`: its reserves over all pools plus its
    /// balances over all wallets.
    pub closed spec fn supply(self, t: Tok) -> int {
        sum_amms(self.amms@, t) + sum_wallets(self.wallets@, t)
    }

    /// Well-formedness: one wallet per user, one balance entry per token in
    /// each wallet, and one pool per unordered pair of distinct tokens, each
    /// pool's pair stored in canonical token order.  Every state reachable
    /// through this interface is well-formed.
    pub closed spec fn wf(self) -> bool {
        wf_wallets(self.wallets@) && wf_amms(self.amms@)
    }

    /// The empty economy: no wallets, no pools.
    pub fn new() -> (s: State)
        ensures
            forall|u: Seq<char>, t: Tok| #[trigger] s.bal(u, t) == 0,
            forall|x: Tok, y: Tok| #[trigger] s.res(x, y) == 0,
            forall|t: Tok| #[trigger] s.supply(t) == 0,
            s.wf(),
    {
        State { wallets: Vec::new(), amms: Vec::new() }
    }

    /// The balance of `token` held by `user`; zero for an absent user or
    /// entry.  Reading never changes the state.
    pub fn get_balance(&self, user: &User, token: &Token) -> (r: u64)
        ensures
            r as int == self.bal(user@, token@),
    {
        match find_wallet(&self.wallets, user) {
            None => {
                proof {
                    lemma_bal_in_from(self.wallets@, user@, token@, self.wallets@.len() as int);
                    assert(self.wallets@.skip(self.wallets@.len() as int) =~= Seq::<
                        Wallet,
                    >::empty());
                }
                0
            },
            Some(i) => {
                proof {
                    lemma_bal_in_from(self.wallets@, user@, token@, i as int);
                    assert(self.wallets@.skip(i as int)[0] == self.wallets@[i as int]);
                }
                self.wallets[i].get_balance(token)
            },
        }
    }

    /// The reserve of `t` in the pool for `{t, tother}`; zero if no such
    /// pool exists.  Reading never changes the state.
    pub fn get_reserve(&self, t: &Token, tother: &Token) -> (r: u64)
        ensures
            r as int == self.res(t@, tother@),
    {
        match find_amm(&self.amms, t, tother) {
            None => {
                proof {
                    lemma_res_in_from(self.amms@, t@, tother@, self.amms@.len() as int);
                    assert(self.amms@.skip(self.amms@.len() as int) =~= Seq::<AMM>::empty());
                }
                0
            },
            Some(i) => {
                proof {
                    lemma_res_in_from(self.amms@, t@, tother@, i as int);
                    assert(self.amms@.skip(i as int)[0] == self.amms@[i as int]);
                }
                if token_eq(&self.amms[i].t0, t) {
                    self.amms[i].r0
                } else {
                    self.amms[i].r1
                }
            },
        }
    }

    /// How many wallets the state holds.
    pub closed spec fn spec_wallet_count(self) -> nat {
        self.wallets@.len()
    }

    /// The wallet at position `i`, in first-write order.
    pub closed spec fn spec_wallet_at(self, i: int) -> Wallet {
        self.wallets@[i]
    }

    /// How many pools the state holds.
    pub closed spec fn spec_pool_count(self) -> nat {
        self.amms@.len()
    }

    /// The pool at position `i`, in first-write order.
    pub closed spec fn spec_pool_at(self, i: int) -> AMM {
        self.amms@[i]
    }

    /// How many wallets the state holds.
    pub fn wallet_count(&self) -> (n: usize)
        ensures
            n == self.spec_wallet_count(),
    {
        self.wallets.len()
    }

    /// The wallet at position `i`, in first-write order.
    pub fn wallet_at(&self, i: usize) -> (w: &Wallet)
        requires
            i < self.spec_wallet_count(),
        ensures
            *w == self.spec_wallet_at(i as int),
    {
        &self.wallets[i]
    }

    /// How many pools the state holds.
    pub fn pool_count(&self) -> (n: usize)
        ensures
            n == self.spec_pool_count(),
    {
        self.amms.len()
    }

    /// The pool at position `i`, in first-write order.
    pub fn pool_at(&self, i: usize) -> (a: &AMM)
        requires
            i < self.spec_pool_count(),
        ensures
            *a == self.spec_pool_at(i as int),
    {
        &self.amms[i]
    }

    /// Set `user`'s balance of `token` to exactly `new_value`, creating the
    /// wallet and the balance entry if absent.  Nothing else changes: every
    /// other balance and every reserve keeps its value, and only `token`'s
    /// supply moves, by the difference written.
    pub fn set_balance(&mut self, user: &User, token: &Token, new_value: u64)
        ensures
            forall|u2: Seq<char>, t2: Tok| #[trigger] final(self).bal(u2, t2) == (if u2 == user@
                && t2 == token@ {
                new_value as int
            } else {
                old(self).bal(u2, t2)
            }),
            forall|x: Tok, y: Tok| #[trigger] final(self).res(x, y) == old(self).res(x, y),
            forall|t2: Tok| #[trigger] final(self).supply(t2) == old(self).supply(t2) + (if t2
                == token@ {
                new_value - old(self).bal(user@, token@)
            } else {
                0
            }),
            old(self).wf() ==> final(self).wf(),
    {
        let ghost ws0 = self.wallets@;
        match find_wallet(&self.wallets, user) {
            Some(i) => {
                let ghost iw = i as int;
                match find_balance(&self.wallets[i].balances, token) {
                    Some(j) => {
                        let ghost jb = j as int;
                        self.wallets[i].balances[j].value = new_value;
                        proof {
                            let w2 = self.wallets@[iw];
                            let b2 = w2.balances@[jb];
                            assert(self.wallets@ == ws0.update(iw, w2));
                            assert(w2.balances@ == ws0[iw].balances@.update(jb, b2));
                            assert(b2.token == ws0[iw].balances@[jb].token);
                            assert(b2.value == new_value);
                            assert(w2.user == ws0[iw].user);
                            assert forall|t2: Tok| #[trigger] wallet_bal(w2.balances@, t2) == (
                            if t2 == token@ {
                                new_value as int
                            } else {
                                wallet_bal(ws0[iw].balances@, t2)
                            }) by {
                                lemma_wallet_bal_update(ws0[iw].balances@, jb, b2, t2);
                            }
                            if wf_balances(ws0[iw].balances@) {
                                assert forall|p: int|
                                    0 <= p < w2.balances@.len() implies (
                                #[trigger] w2.balances@[p]).token@ == ws0[iw].balances@[p].token@
                                by {}
                                assert(wf_balances(w2.balances@));
                            }
                            self.lemma_after_wallet_update(*old(self), iw, user@, token@, new_value);
                        }
                    },
                    None => {
                        let entry = Balance { token: token_clone(token), value: new_value };
                        self.wallets[i].balances.push(entry);
                        proof {
                            let w2 = self.wallets@[iw];
                            let b2 = w2.balances@[w2.balances@.len() - 1];
                            assert(self.wallets@ == ws0.update(iw, w2));
                            assert(w2.balances@ == ws0[iw].balances@.push(b2));
                            assert(b2.token@ == token@);
                            assert(b2.value == new_value);
                            assert(w2.user == ws0[iw].user);
                            assert forall|t2: Tok| #[trigger] wallet_bal(w2.balances@, t2) == (
                            if t2 == token@ {
                                new_value as int
                            } else {
                                wallet_bal(ws0[iw].balances@, t2)
                            }) by {
                                lemma_wallet_bal_push(ws0[iw].balances@, b2, t2);
                            }
                            if wf_balances(ws0[iw].balances@) {
                                assert(wf_balances(w2.balances@));
                            }
                            self.lemma_after_wallet_update(*old(self), iw, user@, token@, new_value);
                        }
                    },
                }
            },
            None => {
                let mut balances: Vec<Balance> = Vec::new();
                balances.push(Balance { token: token_clone(token), value: new_value });
                let w_new = Wallet { user: user_clone(user), balances };
                self.wallets.push(w_new);
                proof {
                    let w2 = self.wallets@[self.wallets@.len() - 1];
                    assert(self.wallets@ == ws0.push(w2));
                    assert(w2.user@ == user@);
                    assert(w2.balances@.len() == 1);
                    assert(w2.balances@[0].token@ == token@);
                    assert(w2.balances@[0].value == new_value);
                    assert(w2.balances@ =~= Seq::<Balance>::empty().push(w2.balances@[0]));
                    assert forall|t2: Tok| #[trigger] wallet_bal(w2.balances@, t2) == (if t2
                        == token@ {
                        new_value as int
                    } else {
                        0
                    }) by {
                        lemma_wallet_bal_push(Seq::<Balance>::empty(), w2.balances@[0], t2);
                    }
                    assert forall|u2: Seq<char>, t2: Tok| #[trigger] self.bal(u2, t2) == (if u2
                        == user@ && t2 == token@ {
                        new_value as int
                    } else {
                        old(self).bal(u2, t2)
                    }) by {
                        lemma_bal_in_push(ws0, w2, u2, t2);
                        if u2 == user@ {
                            lemma_bal_in_absent(ws0, u2, t2);
                        }
                    }
                    assert forall|t2: Tok| #[trigger] self.supply(t2) == old(self).supply(t2) + (
                    if t2 == token@ {
                        new_value - old(self).bal(user@, token@)
                    } else {
                        0
                    }) by {
                        lemma_sum_wallets_push(ws0, w2, t2);
                        lemma_bal_in_absent(ws0, user@, token@);
                    }
                    if old(self).wf() {
                        assert(wf_balances(w2.balances@));
                        assert(wf_wallets(self.wallets@));
                    }
                }
            },
        }
    }

    /// Set the reserves of the pool for the unordered pair `{t0, t1}` to
    /// exactly `r0` for `t0` and `r1` for `t1`, creating the pool — with its
    /// tokens in canonical order — if absent.  Nothing else changes: every
    /// balance and every other pair's reserve keeps its value, and the two
    /// tokens' supplies move by the differences written.
    pub fn set_reserve(&mut self, t0: &Token, r0: u64, t1: &Token, r1: u64)
        requires
            t0@ != t1@,
        ensures
            forall|x: Tok, y: Tok| #[trigger] final(self).res(x, y) == (if x == t0@ && y == t1@ {
                r0 as int
            } else if x == t1@ && y == t0@ {
                r1 as int
            } else {
                old(self).res(x, y)
            }),
            forall|u2: Seq<char>, t2: Tok| #[trigger] final(self).bal(u2, t2) == old(self).bal(
                u2,
                t2,
            ),
            forall|t2: Tok| #[trigger] final(self).supply(t2) == old(self).supply(t2) + (if t2
                == t0@ {
                r0 - old(self).res(t0@, t1@)
            } else if t2 == t1@ {
                r1 - old(self).res(t1@, t0@)
            } else {
                0
            }),
            old(self).wf() ==> final(self).wf(),
    {
        let ghost as0 = self.amms@;
        match find_amm(&self.amms, t0, t1) {
            Some(i) => {
                let ghost iw = i as int;
                if token_eq(&self.amms[i].t0, t0) {
                    self.amms[i].r0 = r0;
                    self.amms[i].r1 = r1;
                } else {
                    self.amms[i].r0 = r1;
                    self.amms[i].r1 = r0;
                }
                proof {
                    let a2 = self.amms@[iw];
                    assert(self.amms@ =~= as0.update(iw, a2));
                    assert(a2.t0 == as0[iw].t0);
                    assert(a2.t1 == as0[iw].t1);
                    lemma_res_in_found(as0, t0@, t1@, iw);
                    lemma_res_in_found(as0, t1@, t0@, iw);
                    assert forall|x: Tok, y: Tok| #[trigger] self.res(x, y) == (if x == t0@ && y
                        == t1@ {
                        r0 as int
                    } else if x == t1@ && y == t0@ {
                        r1 as int
                    } else {
                        old(self).res(x, y)
                    }) by {
                        lemma_res_in_update(as0, iw, a2, x, y);
                    }
                    assert forall|t2: Tok| #[trigger] self.supply(t2) == old(self).supply(t2) + (
                    if t2 == t0@ {
                        r0 - old(self).res(t0@, t1@)
                    } else if t2 == t1@ {
                        r1 - old(self).res(t1@, t0@)
                    } else {
                        0
                    }) by {
                        lemma_sum_amms_update(as0, iw, a2, t2);
                    }
                    if old(self).wf() {
                        assert forall|k: int| 0 <= k < self.amms@.len() implies tok_lt(
                            (#[trigger] self.amms@[k]).t0@,
                            self.amms@[k].t1@,
                        ) && self.amms@[k].t0@ != self.amms@[k].t1@ by {
                            assert(self.amms@[k].t0@ == as0[k].t0@);
                            assert(self.amms@[k].t1@ == as0[k].t1@);
                        }
                        assert forall|k: int, l: int|
                            0 <= k < l < self.amms@.len() implies !amm_matches(
                            #[trigger] self.amms@[k],
                            (#[trigger] self.amms@[l]).t0@,
                            self.amms@[l].t1@,
                        ) by {
                            assert(self.amms@[k].t0@ == as0[k].t0@);
                            assert(self.amms@[k].t1@ == as0[k].t1@);
                            assert(self.amms@[l].t0@ == as0[l].t0@);
                            assert(self.amms@[l].t1@ == as0[l].t1@);
                        }
                        assert(wf_amms(self.amms@));
                    }
                }
            },
            None => {
                let ord = order_token_reserves(t0, r0, t1, r1);
                let a_new = AMM::new(ord.1, ord.0, ord.3, ord.2);
                self.amms.push(a_new);
                proof {
                    let a2 = self.amms@[self.amms@.len() - 1];
                    assert(self.amms@ == as0.push(a2));
                    assert((a2.t0@ == t0@ && a2.r0 == r0 && a2.t1@ == t1@ && a2.r1 == r1) || (
                    a2.t0@ == t1@ && a2.r0 == r1 && a2.t1@ == t0@ && a2.r1 == r0));
                    assert forall|j: int|
                        0 <= j < as0.len() implies !amm_matches(
                        #[trigger] as0[j],
                        a2.t0@,
                        a2.t1@,
                    ) by {
                        assert(!amm_matches(as0[j], t0@, t1@));
                    }
                    lemma_res_in_absent(as0, t0@, t1@);
                    lemma_res_in_absent(as0, t1@, t0@);
                    assert forall|x: Tok, y: Tok| #[trigger] self.res(x, y) == (if x == t0@ && y
                        == t1@ {
                        r0 as int
                    } else if x == t1@ && y == t0@ {
                        r1 as int
                    } else {
                        old(self).res(x, y)
                    }) by {
                        lemma_res_in_push(as0, a2, x, y);
                    }
                    assert forall|t2: Tok| #[trigger] self.supply(t2) == old(self).supply(t2) + (
                    if t2 == t0@ {
                        r0 - old(self).res(t0@, t1@)
                    } else if t2 == t1@ {
                        r1 - old(self).res(t1@, t0@)
                    } else {
                        0
                    }) by {
                        lemma_sum_amms_push(as0, a2, t2);
                    }
                    if old(self).wf() {
                        assert forall|k: int, l: int|
                            0 <= k < l < self.amms@.len() implies !amm_matches(
                            #[trigger] self.amms@[k],
                            (#[trigger] self.amms@[l]).t0@,
                            self.amms@[l].t1@,
                        ) by {
                            if l < as0.len() {
                                assert(self.amms@[k] == as0[k]);
                                assert(self.amms@[l] == as0[l]);
                            } else {
                                assert(self.amms@[k] == as0[k]);
                                assert(self.amms@[l] == a2);
                            }
                        }
                        assert(wf_amms(self.amms@));
                    }
                }
            },
        }
    }

    /// The supply of `token`: the sum of its reserves over all pools and
    /// its balances over all wallets.  Returns `None` when that sum does
    /// not fit in 64 bits.  Reading never changes the state.
    pub fn token_supply(&self, token: &Token) -> (r: Option<u64>)
        ensures
            match r {
                Some(v) => v as int == self.supply(token@),
                None => self.supply(token@) > u64::MAX,
            },
    {
        let ghost t = token@;
        let mut total: u64 = 0;
        let n = self.amms.len();
        let mut i: usize = 0;
        proof {
            assert(self.amms@.skip(0) =~= self.amms@);
        }
        while i < n
            invariant
                i <= n,
                n == self.amms@.len(),
                t == token@,
                sum_amms(self.amms@, t) == total + sum_amms(self.amms@.skip(i as int), t),
            decreases n - i,
        {
            let v = self.amms[i].get_reserves(token);
            proof {
                assert(self.amms@.skip(i as int)[0] == self.amms@[i as int]);
                assert(self.amms@.skip(i as int).drop_first() =~= self.amms@.skip(i + 1));
            }
            if v > u64::MAX - total {
                proof {
                    lemma_sum_amms_nonneg(self.amms@.skip(i + 1), t);
                    lemma_sum_wallets_nonneg(self.wallets@, t);
                }
                return None;
            }
            total = total + v;
            i = i + 1;
        }
        proof {
            assert(self.amms@.skip(n as int) =~= Seq::<AMM>::empty());
        }
        let m = self.wallets.len();
        let mut j: usize = 0;
        proof {
            assert(self.wallets@.skip(0) =~= self.wallets@);
        }
        while j < m
            invariant
                j <= m,
                m == self.wallets@.len(),
                t == token@,
                sum_amms(self.amms@, t) + sum_wallets(self.wallets@, t) == total + sum_wallets(
                    self.wallets@.skip(j as int),
                    t,
                ),
            decreases m - j,
        {
            let v = self.wallets[j].get_balance(token);
            proof {
                assert(self.wallets@.skip(j as int)[0] == self.wallets@[j as int]);
                assert(self.wallets@.skip(j as int).drop_first() =~= self.wallets@.skip(j + 1));
            }
            if v > u64::MAX - total {
                proof {
                    lemma_sum_wallets_nonneg(self.wallets@.skip(j + 1), t);
                }
                return None;
            }
            total = total + v;
            j = j + 1;
        }
        proof {
            assert(self.wallets@.skip(m as int) =~= Seq::<Wallet>::empty());
        }
        Some(total)
    }

    /// An independent copy of the state: every balance, reserve, supply and
    /// the well-formedness of the copy agree with the original, and the two
    /// share no storage.
    pub fn duplicate(&self) -> (s: State)
        ensures
            forall|u: Seq<char>, t: Tok| #[trigger] s.bal(u, t) == self.bal(u, t),
            forall|x: Tok, y: Tok| #[trigger] s.res(x, y) == self.res(x, y),
            forall|t: Tok| #[trigger] s.supply(t) == self.supply(t),
            s.wf() == self.wf(),
    {
        let s = State { wallets: clone_wallets(&self.wallets), amms: clone_amms(&self.amms) };
        proof {
            assert forall|u: Seq<char>, t: Tok| #[trigger] s.bal(u, t) == self.bal(u, t) by {
                lemma_bal_in_like(self.wallets@, s.wallets@, u, t);
            }
            assert forall|t: Tok| #[trigger] s.supply(t) == self.supply(t) by {
                lemma_sum_wallets_like(self.wallets@, s.wallets@, t);
            }
            lemma_wf_wallets_like(self.wallets@, s.wallets@);
        }
        s
    }

    /// The bookkeeping shared by the two branches that rewrite an existing
    /// wallet: replacing wallet `iw` with one for the same user whose
    /// balance of `token` is `new_value` and whose other balances are
    /// unchanged rewrites exactly that one balance.
    proof fn lemma_after_wallet_update(
        self,
        pre: State,
        iw: int,
        u: Seq<char>,
        t: Tok,
        new_value: u64,
    )
        requires
            0 <= iw < pre.wallets@.len(),
            self.wallets@ == pre.wallets@.update(iw, self.wallets@[iw]),
            self.amms@ == pre.amms@,
            pre.wallets@[iw].user@ == u,
            forall|j: int| 0 <= j < iw ==> (#[trigger] pre.wallets@[j]).user@ != u,
            self.wallets@[iw].user@ == u,
            forall|t2: Tok| #[trigger] wallet_bal(self.wallets@[iw].balances@, t2) == (if t2 == t {
                new_value as int
            } else {
                wallet_bal(pre.wallets@[iw].balances@, t2)
            }),
            wf_balances(pre.wallets@[iw].balances@) ==> wf_balances(self.wallets@[iw].balances@),
        ensures
            forall|u2: Seq<char>, t2: Tok| #[trigger] self.bal(u2, t2) == (if u2 == u && t2 == t {
                new_value as int
            } else {
                pre.bal(u2, t2)
            }),
            forall|x: Tok, y: Tok| #[trigger] self.res(x, y) == pre.res(x, y),
            forall|t2: Tok| #[trigger] self.supply(t2) == pre.supply(t2) + (if t2 == t {
                new_value - pre.bal(u, t)
            } else {
                0
            }),
            pre.wf() ==> self.wf(),
    {
        let ws0 = pre.wallets@;
        let w2 = self.wallets@[iw];
        assert forall|u2: Seq<char>, t2: Tok| #[trigger] self.bal(u2, t2) == (if u2 == u && t2
            == t {
            new_value as int
        } else {
            pre.bal(u2, t2)
        }) by {
            lemma_bal_in_update(ws0, iw, w2, u2, t2);
            if u2 == u {
                lemma_bal_in_found(ws0, u2, t2, iw);
            }
        }
        assert forall|t2: Tok| #[trigger] self.supply(t2) == pre.supply(t2) + (if t2 == t {
            new_value - pre.bal(u, t)
        } else {
            0
        }) by {
            lemma_sum_wallets_update(ws0, iw, w2, t2);
            lemma_bal_in_found(ws0, u, t2, iw);
        }
        if pre.wf() {
            assert forall|k: int| 0 <= k < self.wallets@.len() implies wf_balances(
                (#[trigger] self.wallets@[k]).balances@,
            ) by {
                if k != iw {
                    assert(self.wallets@[k] == ws0[k]);
                }
            }
            assert forall|k: int, l: int| 0 <= k < l < self.wallets@.len() implies (
            #[trigger] self.wallets@[k]).user@ != (#[trigger] self.wallets@[l]).user@ by {
                assert(self.wallets@[k].user@ == ws0[k].user@);
                assert(self.wallets@[l].user@ == ws0[l].user@);
            }
            assert(wf_wallets(self.wallets@));
        }
    }
}

} // verus!
