//! The transition engine: deposit, swap and redeem.
//!
//! Each transition is a pure function from a well-formed state and its own
//! immutable parameters to a new state or a typed error.  A failed
//! transition changes nothing — every precondition is checked before any
//! write.  The contract of each `apply` is exact: `deposit_rel`, `swap_rel`
//! and `redeem_rel` describe the successful outcome pointwise for every
//! balance, reserve and supply, `deposit_ok` (and its siblings) say
//! precisely on which inputs the transition succeeds, and `deposit_err`
//! (and its siblings) say which error every other input produces.

use vstd::prelude::*;
use crate::state::State;
use crate::token::{Tok, Token, User, is_atomic, token_clone, token_eq, user_clone};

verus! {

/// Why a transition was refused.  Every variant is a recoverable,
/// caller-visible condition; no transition panics on economic inputs.
#[derive(Debug, Clone, Copy, PartialEq, Eq)]
pub enum TransitionError {
    /// A debit would take a balance below zero.
    InsufficientBalance,
    /// The pool is missing, empty, or the swapped amount is zero.
    InsufficientReserves,
    /// A deposit amount is not positive.
    InvalidDepositRatio,
    /// A redeemed share amount is zero or exceeds the outstanding supply.
    InvalidRedeemAmount,
    /// A ratio over the outstanding share supply is needed but that supply
    /// is zero.
    DegenerateSupply,
    /// The token pair cannot mint a share: not two distinct atomic tokens.
    InvalidMint,
    /// A result would not fit in 64 bits.
    Overflow,
}

/// Whether a pair of tokens can mint a liquidity share: two distinct
/// atomic tokens.
pub open spec fn mintable(t0: Tok, t1: Tok) -> bool {
    t0 is Atomic && t1 is Atomic && t0 != t1
}

/// The symbol of an atomic token.
pub open spec fn atom_sym(t: Tok) -> Seq<char>
    recommends
        t is Atomic,
{
    match t {
        Tok::Atomic { sym } => sym,
        Tok::Minted { sym0, .. } => sym0,
    }
}

/// The liquidity-share token minted for the ordered pair `(t0, t1)`.
pub open spec fn lp_tok(t0: Tok, t1: Tok) -> Tok
    recommends
        t0 is Atomic,
        t1 is Atomic,
{
    Tok::Minted { sym0: atom_sym(t0), sym1: atom_sym(t1) }
}

/// Adds liquidity: debit `v0` of `t0` and `v1` of `t1` from the sender,
/// add both to the pool `{t0, t1}`, and credit the sender `v0 + v1` freshly
/// minted shares of `Minted(t0, t1)`.
pub struct Deposit {
    pub sender: User,
    pub v0: u64,
    pub t0: Token,
    pub v1: u64,
    pub t1: Token,
}

/// The inputs on which a deposit succeeds: a mintable pair, positive
/// amounts, sufficient sender balances, and no 64-bit overflow of the new
/// reserves or the sender's share balance.
pub open spec fn deposit_ok(d: Deposit, pre: State) -> bool {
    &&& mintable(d.t0@, d.t1@)
    &&& d.v0 > 0
    &&& d.v1 > 0
    &&& pre.bal(d.sender@, d.t0@) >= d.v0
    &&& pre.bal(d.sender@, d.t1@) >= d.v1
    &&& pre.res(d.t0@, d.t1@) + d.v0 <= u64::MAX
    &&& pre.res(d.t1@, d.t0@) + d.v1 <= u64::MAX
    &&& pre.bal(d.sender@, lp_tok(d.t0@, d.t1@)) + d.v0 + d.v1 <= u64::MAX
}

/// The error a failing deposit reports, by the first failing check.
pub open spec fn deposit_err(d: Deposit, pre: State) -> TransitionError {
    if !mintable(d.t0@, d.t1@) {
        TransitionError::InvalidMint
    } else if d.v0 == 0 || d.v1 == 0 {
        TransitionError::InvalidDepositRatio
    } else if pre.bal(d.sender@, d.t0@) < d.v0 || pre.bal(d.sender@, d.t1@) < d.v1 {
        TransitionError::InsufficientBalance
    } else {
        TransitionError::Overflow
    }
}

/// The exact effect of a successful deposit: the sender's `t0` and `t1`
/// balances drop by the deposited amounts, the pool's reserves rise by the
/// same amounts, the sender's share balance rises by `v0 + v1`, and nothing
/// else moves.  Only the minted share's supply changes.
pub open spec fn deposit_rel(d: Deposit, pre: State, post: State) -> bool {
    let lp = lp_tok(d.t0@, d.t1@);
    &&& forall|u: Seq<char>, t: Tok| #[trigger] post.bal(u, t) == (if u == d.sender@ && t
        == d.t0@ {
        pre.bal(u, t) - d.v0
    } else if u == d.sender@ && t == d.t1@ {
        pre.bal(u, t) - d.v1
    } else if u == d.sender@ && t == lp {
        pre.bal(u, t) + d.v0 + d.v1
    } else {
        pre.bal(u, t)
    })
    &&& forall|x: Tok, y: Tok| #[trigger] post.res(x, y) == (if x == d.t0@ && y == d.t1@ {
        pre.res(x, y) + d.v0
    } else if x == d.t1@ && y == d.t0@ {
        pre.res(x, y) + d.v1
    } else {
        pre.res(x, y)
    })
    &&& forall|t: Tok| #[trigger] post.supply(t) == pre.supply(t) + (if t == lp {
        d.v0 + d.v1
    } else {
        0
    })
}

impl Deposit {
    /// A deposit of `v0` of `t0` and `v1` of `t1` by `sender`.
    pub fn new(sender: &User, v0: u64, t0: &Token, v1: u64, t1: &Token) -> (d: Deposit)
        ensures
            d.sender@ == sender@,
            d.v0 == v0,
            d.t0 == *t0,
            d.v1 == v1,
            d.t1 == *t1,
    {
        Deposit {
            sender: user_clone(sender),
            v0,
            t0: token_clone(t0),
            v1,
            t1: token_clone(t1),
        }
    }

    /// Apply the deposit to `pre`, yielding the new state, or the error
    /// given by `deposit_err` exactly when `deposit_ok` fails.  `pre` is
    /// never changed.
    pub fn apply(&self, pre: &State) -> (r: Result<State, TransitionError>)
        requires
            pre.wf(),
        ensures
            match r {
                Ok(post) => deposit_ok(*self, *pre) && post.wf() && deposit_rel(*self, *pre, post),
                Err(e) => !deposit_ok(*self, *pre) && e == deposit_err(*self, *pre),
            },
    {
        if !(is_atomic(&self.t0) && is_atomic(&self.t1)) || token_eq(&self.t0, &self.t1) {
            return Err(TransitionError::InvalidMint);
        }
        if self.v0 == 0 || self.v1 == 0 {
            return Err(TransitionError::InvalidDepositRatio);
        }
        let b0 = pre.get_balance(&self.sender, &self.t0);
        let b1 = pre.get_balance(&self.sender, &self.t1);
        if b0 < self.v0 || b1 < self.v1 {
            return Err(TransitionError::InsufficientBalance);
        }
        let r0 = pre.get_reserve(&self.t0, &self.t1);
        let r1 = pre.get_reserve(&self.t1, &self.t0);
        let lp = Token::mint(&self.t0, &self.t1);
        let lb = pre.get_balance(&self.sender, &lp);
        if r0 > u64::MAX - self.v0 || r1 > u64::MAX - self.v1 {
            return Err(TransitionError::Overflow);
        }
        if self.v1 > u64::MAX - self.v0 || lb > u64::MAX - (self.v0 + self.v1) {
            return Err(TransitionError::Overflow);
        }
        let mut post = pre.duplicate();
        post.set_balance(&self.sender, &self.t0, b0 - self.v0);
        post.set_balance(&self.sender, &self.t1, b1 - self.v1);
        post.set_reserve(&self.t0, r0 + self.v0, &self.t1, r1 + self.v1);
        post.set_balance(&self.sender, &lp, lb + (self.v0 + self.v1));
        Ok(post)
    }
}

/// A constant-product exchange: the sender pays `x` of `tin` into the pool
/// `{tin, tout}` and receives `tout` in return, the pool keeping its
/// reserve product constant (up to the truncating division).
pub struct Swap {
    pub sender: User,
    pub tin: Token,
    pub tout: Token,
    pub x: u64,
}

/// The pool's reserve of `tout` after the swap: `K / (Rin + x)`, with
/// `K = Rin * Rout`, the division truncating toward zero.
pub open spec fn swap_new_out(d: Swap, pre: State) -> int {
    (pre.res(d.tin@, d.tout@) * pre.res(d.tout@, d.tin@)) / (pre.res(d.tin@, d.tout@) + d.x)
}

/// The inputs on which a swap succeeds: an existing pool with positive
/// reserves, a positive input amount, a sufficient sender balance, and no
/// 64-bit overflow of the new reserve or the credited balance.
pub open spec fn swap_ok(d: Swap, pre: State) -> bool {
    &&& pre.res(d.tin@, d.tout@) > 0
    &&& pre.res(d.tout@, d.tin@) > 0
    &&& d.x > 0
    &&& pre.bal(d.sender@, d.tin@) >= d.x
    &&& pre.res(d.tin@, d.tout@) + d.x <= u64::MAX
    &&& pre.bal(d.sender@, d.tout@) + (pre.res(d.tout@, d.tin@) - swap_new_out(d, pre))
        <= u64::MAX
}

/// The error a failing swap reports, by the first failing check.
pub open spec fn swap_err(d: Swap, pre: State) -> TransitionError {
    if !(pre.res(d.tin@, d.tout@) > 0 && pre.res(d.tout@, d.tin@) > 0 && d.x > 0) {
        TransitionError::InsufficientReserves
    } else if pre.bal(d.sender@, d.tin@) < d.x {
        TransitionError::InsufficientBalance
    } else {
        TransitionError::Overflow
    }
}

/// The exact effect of a successful swap: the sender pays `x` of `tin` and
/// receives `Rout - K/(Rin+x)` of `tout`, the pool's reserves become
/// `(Rin + x, K/(Rin+x))`, and nothing else moves.  Every token's supply is
/// unchanged.
pub open spec fn swap_rel(d: Swap, pre: State, post: State) -> bool {
    let r_in = pre.res(d.tin@, d.tout@);
    let r_out = pre.res(d.tout@, d.tin@);
    let new_out = swap_new_out(d, pre);
    &&& forall|u: Seq<char>, t: Tok| #[trigger] post.bal(u, t) == (if u == d.sender@ && t
        == d.tin@ {
        pre.bal(u, t) - d.x
    } else if u == d.sender@ && t == d.tout@ {
        pre.bal(u, t) + (r_out - new_out)
    } else {
        pre.bal(u, t)
    })
    &&& forall|x: Tok, y: Tok| #[trigger] post.res(x, y) == (if x == d.tin@ && y == d.tout@ {
        r_in + d.x
    } else if x == d.tout@ && y == d.tin@ {
        new_out
    } else {
        pre.res(x, y)
    })
    &&& forall|t: Tok| #[trigger] post.supply(t) == pre.supply(t)
}

impl Swap {
    /// A swap by `sender` paying `x` of `tin` for `tout`.
    pub fn new(sender: &User, tin: &Token, tout: &Token, x: u64) -> (d: Swap)
        ensures
            d.sender@ == sender@,
            d.tin == *tin,
            d.tout == *tout,
            d.x == x,
    {
        Swap { sender: user_clone(sender), tin: token_clone(tin), tout: token_clone(tout), x }
    }

    /// Apply the swap to `pre`, yielding the new state, or the error given
    /// by `swap_err` exactly when `swap_ok` fails.  `pre` is never changed.
    pub fn apply(&self, pre: &State) -> (r: Result<State, TransitionError>)
        requires
            pre.wf(),
        ensures
            match r {
                Ok(post) => swap_ok(*self, *pre) && post.wf() && swap_rel(*self, *pre, post),
                Err(e) => !swap_ok(*self, *pre) && e == swap_err(*self, *pre),
            },
    {
        let r_out = pre.get_reserve(&self.tout, &self.tin);
        let r_in = pre.get_reserve(&self.tin, &self.tout);
        if r_in == 0 || r_out == 0 || self.x == 0 {
            return Err(TransitionError::InsufficientReserves);
        }
        let b_in = pre.get_balance(&self.sender, &self.tin);
        if b_in < self.x {
            return Err(TransitionError::InsufficientBalance);
        }
        if r_in > u64::MAX - self.x {
            return Err(TransitionError::Overflow);
        }
        proof {
            crate::state::lemma_res_self_zero(*pre, self.tin@);
            assert(self.tin@ != self.tout@);
        }
        let new_in = r_in + self.x;
        proof {
            assert((r_in as int) * (r_out as int) <= (u64::MAX as int) * (u64::MAX as int))
                by (nonlinear_arith)
                requires
                    0 <= r_in <= u64::MAX,
                    0 <= r_out <= u64::MAX,
            ;
            assert((u64::MAX as int) * (u64::MAX as int) < u128::MAX as int) by (nonlinear_arith);
        }
        let k: u128 = (r_in as u128) * (r_out as u128);
        let q: u128 = k / (new_in as u128);
        proof {
            assert(k == (r_in as int) * (r_out as int));
            assert(q == swap_new_out(*self, *pre));
            vstd::arithmetic::div_mod::lemma_div_is_ordered_by_denominator(
                k as int,
                r_in as int,
                new_in as int,
            );
            vstd::arithmetic::div_mod::lemma_div_by_multiple(r_out as int, r_in as int);
            assert((r_out as int) * (r_in as int) == (r_in as int) * (r_out as int))
                by (nonlinear_arith);
            assert(q <= r_out);
        }
        let new_out = q as u64;
        let delta = r_out - new_out;
        let b_out = pre.get_balance(&self.sender, &self.tout);
        if b_out > u64::MAX - delta {
            return Err(TransitionError::Overflow);
        }
        let mut post = pre.duplicate();
        post.set_balance(&self.sender, &self.tin, b_in - self.x);
        post.set_balance(&self.sender, &self.tout, b_out + delta);
        post.set_reserve(&self.tin, new_in, &self.tout, new_out);
        Ok(post)
    }
}

/// Removes liquidity: burn `v` of the sender's `Minted(t0, t1)` shares and
/// pay out the proportional part `v / supply` of each of the pool's two
/// reserves, the divisions truncating toward zero.
pub struct Redeem {
    pub sender: User,
    pub t0: Token,
    pub t1: Token,
    pub v: u64,
}

/// The amount of `t0` a redeem pays out: `R0 * v / L`, truncating, where
/// `L` is the outstanding share supply.
pub open spec fn redeem_out0(d: Redeem, pre: State) -> int {
    pre.res(d.t0@, d.t1@) * d.v / pre.supply(lp_tok(d.t0@, d.t1@))
}

/// The amount of `t1` a redeem pays out: `R1 * v / L`, truncating.
pub open spec fn redeem_out1(d: Redeem, pre: State) -> int {
    pre.res(d.t1@, d.t0@) * d.v / pre.supply(lp_tok(d.t0@, d.t1@))
}

/// The inputs on which a redeem succeeds: a mintable pair, a positive
/// share amount within both the outstanding supply and the sender's share
/// balance, a supply that fits in 64 bits, and no 64-bit overflow of the
/// credited balances.
pub open spec fn redeem_ok(d: Redeem, pre: State) -> bool {
    let lp = lp_tok(d.t0@, d.t1@);
    &&& mintable(d.t0@, d.t1@)
    &&& d.v > 0
    &&& pre.supply(lp) <= u64::MAX
    &&& pre.supply(lp) > 0
    &&& d.v <= pre.supply(lp)
    &&& pre.bal(d.sender@, lp) >= d.v
    &&& pre.bal(d.sender@, d.t0@) + redeem_out0(d, pre) <= u64::MAX
    &&& pre.bal(d.sender@, d.t1@) + redeem_out1(d, pre) <= u64::MAX
}

/// The error a failing redeem reports, by the first failing check.
pub open spec fn redeem_err(d: Redeem, pre: State) -> TransitionError {
    let lp = lp_tok(d.t0@, d.t1@);
    if !mintable(d.t0@, d.t1@) {
        TransitionError::InvalidMint
    } else if d.v == 0 {
        TransitionError::InvalidRedeemAmount
    } else if pre.supply(lp) > u64::MAX {
        TransitionError::Overflow
    } else if pre.supply(lp) == 0 {
        TransitionError::DegenerateSupply
    } else if d.v > pre.supply(lp) {
        TransitionError::InvalidRedeemAmount
    } else if pre.bal(d.sender@, lp) < d.v {
        TransitionError::InsufficientBalance
    } else {
        TransitionError::Overflow
    }
}

/// The exact effect of a successful redeem: the pool's reserves drop by the
/// paid-out amounts, the sender receives exactly those amounts, the
/// sender's share balance drops by `v`, and nothing else moves.  Only the
/// burned share's supply changes.
pub open spec fn redeem_rel(d: Redeem, pre: State, post: State) -> bool {
    let lp = lp_tok(d.t0@, d.t1@);
    let out0 = redeem_out0(d, pre);
    let out1 = redeem_out1(d, pre);
    &&& forall|u: Seq<char>, t: Tok| #[trigger] post.bal(u, t) == (if u == d.sender@ && t
        == d.t0@ {
        pre.bal(u, t) + out0
    } else if u == d.sender@ && t == d.t1@ {
        pre.bal(u, t) + out1
    } else if u == d.sender@ && t == lp {
        pre.bal(u, t) - d.v
    } else {
        pre.bal(u, t)
    })
    &&& forall|x: Tok, y: Tok| #[trigger] post.res(x, y) == (if x == d.t0@ && y == d.t1@ {
        pre.res(x, y) - out0
    } else if x == d.t1@ && y == d.t0@ {
        pre.res(x, y) - out1
    } else {
        pre.res(x, y)
    })
    &&& forall|t: Tok| #[trigger] post.supply(t) == pre.supply(t) - (if t == lp {
        d.v as int
    } else {
        0
    })
}

impl Redeem {
    /// A redeem by `sender` of `v` shares of `Minted(t0, t1)`.
    pub fn new(sender: &User, t0: &Token, t1: &Token, v: u64) -> (d: Redeem)
        ensures
            d.sender@ == sender@,
            d.t0 == *t0,
            d.t1 == *t1,
            d.v == v,
    {
        Redeem { sender: user_clone(sender), t0: token_clone(t0), t1: token_clone(t1), v }
    }

    /// Apply the redeem to `pre`, yielding the new state, or the error
    /// given by `redeem_err` exactly when `redeem_ok` fails.  `pre` is
    /// never changed.
    pub fn apply(&self, pre: &State) -> (r: Result<State, TransitionError>)
        requires
            pre.wf(),
        ensures
            match r {
                Ok(post) => redeem_ok(*self, *pre) && post.wf() && redeem_rel(*self, *pre, post),
                Err(e) => !redeem_ok(*self, *pre) && e == redeem_err(*self, *pre),
            },
    {
        if !(is_atomic(&self.t0) && is_atomic(&self.t1)) || token_eq(&self.t0, &self.t1) {
            return Err(TransitionError::InvalidMint);
        }
        if self.v == 0 {
            return Err(TransitionError::InvalidRedeemAmount);
        }
        let lp = Token::mint(&self.t0, &self.t1);
        let lsup = match pre.token_supply(&lp) {
            None => {
                return Err(TransitionError::Overflow);
            },
            Some(l) => l,
        };
        if lsup == 0 {
            return Err(TransitionError::DegenerateSupply);
        }
        if self.v > lsup {
            return Err(TransitionError::InvalidRedeemAmount);
        }
        let lb = pre.get_balance(&self.sender, &lp);
        if lb < self.v {
            return Err(TransitionError::InsufficientBalance);
        }
        let r0 = pre.get_reserve(&self.t0, &self.t1);
        let r1 = pre.get_reserve(&self.t1, &self.t0);
        proof {
            assert((r0 as int) * (self.v as int) <= (u64::MAX as int) * (u64::MAX as int)
                && (r1 as int) * (self.v as int) <= (u64::MAX as int) * (u64::MAX as int)
                && (u64::MAX as int) * (u64::MAX as int) < u128::MAX as int) by (nonlinear_arith)
                requires
                    0 <= r0 <= u64::MAX,
                    0 <= r1 <= u64::MAX,
                    0 <= self.v <= u64::MAX,
            ;
        }
        let o0_wide: u128 = (r0 as u128) * (self.v as u128) / (lsup as u128);
        let o1_wide: u128 = (r1 as u128) * (self.v as u128) / (lsup as u128);
        proof {
            lemma_scaled_share_le_whole(r0 as int, self.v as int, lsup as int);
            lemma_scaled_share_le_whole(r1 as int, self.v as int, lsup as int);
            assert(o0_wide == redeem_out0(*self, *pre));
            assert(o1_wide == redeem_out1(*self, *pre));
        }
        let out0 = o0_wide as u64;
        let out1 = o1_wide as u64;
        let b0 = pre.get_balance(&self.sender, &self.t0);
        let b1 = pre.get_balance(&self.sender, &self.t1);
        if b0 > u64::MAX - out0 || b1 > u64::MAX - out1 {
            return Err(TransitionError::Overflow);
        }
        let mut post = pre.duplicate();
        post.set_reserve(&self.t0, r0 - out0, &self.t1, r1 - out1);
        post.set_balance(&self.sender, &self.t0, b0 + out0);
        post.set_balance(&self.sender, &self.t1, b1 + out1);
        post.set_balance(&self.sender, &lp, lb - self.v);
        Ok(post)
    }
}

/// Constant product.  After a swap the pool's reserves `(Rin + x, R'out)`
/// satisfy `(Rin + x) * R'out <= Rin * Rout < (Rin + x) * (R'out + 1)`:
/// the pre-swap constant `K = Rin * Rout` is preserved exactly up to the
/// remainder of the truncating division that computes `R'out`.
pub proof fn lemma_swap_constant_product(d: Swap, pre: State, post: State)
    requires
        pre.wf(),
        swap_ok(d, pre),
        swap_rel(d, pre, post),
    ensures
        post.res(d.tin@, d.tout@) * post.res(d.tout@, d.tin@) <= pre.res(d.tin@, d.tout@)
            * pre.res(d.tout@, d.tin@),
        pre.res(d.tin@, d.tout@) * pre.res(d.tout@, d.tin@) < post.res(d.tin@, d.tout@) * (
        post.res(d.tout@, d.tin@) + 1),
{
    crate::state::lemma_res_self_zero(pre, d.tin@);
    assert(d.tin@ != d.tout@);
    let r_in = pre.res(d.tin@, d.tout@);
    let r_out = pre.res(d.tout@, d.tin@);
    let k = r_in * r_out;
    let n_in = r_in + d.x;
    let n_out = k / n_in;
    assert(post.res(d.tin@, d.tout@) == n_in);
    assert(post.res(d.tout@, d.tin@) == n_out);
    vstd::arithmetic::div_mod::lemma_fundamental_div_mod(k, n_in);
    vstd::arithmetic::div_mod::lemma_mod_bound(k, n_in);
    assert(k == n_in * n_out + k % n_in);
    assert(n_in * n_out <= k && k < n_in * (n_out + 1)) by (nonlinear_arith)
        requires
            k == n_in * n_out + k % n_in,
            0 <= k % n_in < n_in,
    ;
}

/// Conservation under deposit.  A deposit changes no atomic token's
/// supply; the only supply that moves is the minted share's, which grows
/// by exactly the minted amount `v0 + v1`.
pub proof fn lemma_deposit_conserves(d: Deposit, pre: State, post: State)
    requires
        deposit_rel(d, pre, post),
    ensures
        forall|t: Tok| t is Atomic ==> #[trigger] post.supply(t) == pre.supply(t),
        post.supply(lp_tok(d.t0@, d.t1@)) == pre.supply(lp_tok(d.t0@, d.t1@)) + d.v0 + d.v1,
{
}

/// Conservation under swap.  A swap changes no token's supply at all: what
/// the sender pays goes to the pool, and what the pool pays comes from its
/// reserve.
pub proof fn lemma_swap_conserves(d: Swap, pre: State, post: State)
    requires
        swap_rel(d, pre, post),
    ensures
        forall|t: Tok| #[trigger] post.supply(t) == pre.supply(t),
{
}

/// Conservation under redeem.  A redeem changes no atomic token's supply;
/// the only supply that moves is the burned share's, which shrinks by
/// exactly the redeemed amount `v`.
pub proof fn lemma_redeem_conserves(d: Redeem, pre: State, post: State)
    requires
        redeem_rel(d, pre, post),
    ensures
        forall|t: Tok| t is Atomic ==> #[trigger] post.supply(t) == pre.supply(t),
        post.supply(lp_tok(d.t0@, d.t1@)) == pre.supply(lp_tok(d.t0@, d.t1@)) - d.v,
{
}

/// Round trip.  Depositing `(v0, v1)` into a pair with no pool liquidity
/// and no outstanding shares, then immediately redeeming all `v0 + v1`
/// resulting shares, returns every balance, reserve and supply to its
/// value before the deposit — exactly, with no rounding loss, because the
/// redeem ratio is then one.  (Into a pool that already holds liquidity, a
/// non-proportional deposit does not round-trip: the redeem pays shares of
/// the mixed reserves.)
pub proof fn lemma_deposit_redeem_round_trip(
    d: Deposit,
    rd: Redeem,
    pre: State,
    mid: State,
    post: State,
)
    requires
        deposit_ok(d, pre),
        deposit_rel(d, pre, mid),
        redeem_ok(rd, mid),
        redeem_rel(rd, mid, post),
        rd.sender@ == d.sender@,
        rd.t0@ == d.t0@,
        rd.t1@ == d.t1@,
        rd.v == d.v0 + d.v1,
        pre.supply(lp_tok(d.t0@, d.t1@)) == 0,
        pre.res(d.t0@, d.t1@) == 0,
        pre.res(d.t1@, d.t0@) == 0,
    ensures
        forall|u: Seq<char>, t: Tok| #[trigger] post.bal(u, t) == pre.bal(u, t),
        forall|x: Tok, y: Tok| #[trigger] post.res(x, y) == pre.res(x, y),
        forall|t: Tok| #[trigger] post.supply(t) == pre.supply(t),
{
    let lp = lp_tok(d.t0@, d.t1@);
    assert(lp_tok(rd.t0@, rd.t1@) == lp);
    let total: int = d.v0 + d.v1;
    assert(mid.supply(lp) == total);
    assert(mid.res(d.t0@, d.t1@) == d.v0);
    assert(mid.res(d.t1@, d.t0@) == d.v1);
    vstd::arithmetic::div_mod::lemma_div_by_multiple(d.v0 as int, total);
    vstd::arithmetic::div_mod::lemma_div_by_multiple(d.v1 as int, total);
    assert(redeem_out0(rd, mid) == d.v0);
    assert(redeem_out1(rd, mid) == d.v1);
}

/// A share `v` of a whole `l` never scales a reserve `r` past itself:
/// `r * v / l <= r` when `0 < v <= l`.
proof fn lemma_scaled_share_le_whole(r: int, v: int, l: int)
    requires
        0 <= r,
        0 < l,
        0 <= v <= l,
    ensures
        0 <= r * v / l <= r,
{
    vstd::arithmetic::mul::lemma_mul_inequality(v, l, r);
    assert(v * r == r * v && l * r == r * l) by (nonlinear_arith);
    vstd::arithmetic::div_mod::lemma_div_is_ordered(r * v, r * l, l);
    vstd::arithmetic::div_mod::lemma_div_by_multiple(r, l);
    vstd::arithmetic::div_mod::lemma_div_pos_is_pos(r * v, l);
    assert(0 <= r * v) by (nonlinear_arith)
        requires
            0 <= r,
            0 <= v,
    ;
}

} // verus!
