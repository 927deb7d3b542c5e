//! Read-only valuation observers: a configured price table, the price
//! oracle, and net-wealth aggregation.
//!
//! An atomic token's unit price is configuration: a table entry, zero when
//! absent.  A minted share's price is its proportional claim on the dollar
//! value of both underlying reserves, `(p0*R0 + p1*R1) / supply`, the
//! division truncating toward zero; it is undefined — a typed error — when
//! no shares are outstanding.  Net wealth sums `price * amount` over
//! balance entries.  None of these observers ever changes the state.

use vstd::prelude::*;
use crate::state::{Balance, State, Wallet};
use crate::token::{Tok, Token, User, str_eq, user_eq};
use crate::transition::TransitionError;

verus! {

/// One configured price: so many dollars per unit of the atomic token with
/// this symbol.
#[derive(Debug)]
pub struct PriceEntry {
    pub(crate) sym: String,
    pub(crate) price: u64,
}

/// A configured table of unit prices for atomic tokens.  A symbol not in
/// the table has price zero.
#[derive(Debug)]
pub struct PriceTable {
    pub(crate) entries: Vec<PriceEntry>,
}

/// The price of a symbol in a list of entries: the first entry for it, or
/// zero if there is none.
pub(crate) open spec fn price_in(es: Seq<PriceEntry>, sym: Seq<char>) -> int
    decreases es.len(),
{
    if es.len() == 0 {
        0
    } else if es[0].sym@ == sym {
        es[0].price as int
    } else {
        price_in(es.drop_first(), sym)
    }
}

proof fn lemma_price_in_from(es: Seq<PriceEntry>, sym: Seq<char>, i: int)
    requires
        0 <= i <= es.len(),
        forall|j: int| 0 <= j < i ==> (#[trigger] es[j]).sym@ != sym,
    ensures
        price_in(es, sym) == price_in(es.skip(i), sym),
    decreases i,
{
    if i > 0 {
        lemma_price_in_from(es.drop_first(), sym, i - 1);
        assert(forall|j: int| 0 <= j < i - 1 ==> es.drop_first()[j] == #[trigger] es[j + 1]);
        assert(es.drop_first().skip(i - 1) =~= es.skip(i));
    } else {
        assert(es.skip(0) =~= es);
    }
}

proof fn lemma_price_in_update(es: Seq<PriceEntry>, j: int, e2: PriceEntry, sym: Seq<char>)
    requires
        0 <= j < es.len(),
        forall|p: int| 0 <= p < j ==> (#[trigger] es[p]).sym@ != es[j].sym@,
        e2.sym@ == es[j].sym@,
    ensures
        price_in(es.update(j, e2), sym) == if sym == es[j].sym@ {
            e2.price as int
        } else {
            price_in(es, sym)
        },
    decreases j,
{
    let es2 = es.update(j, e2);
    if j == 0 {
        if sym != es[0].sym@ {
            assert(es2.drop_first() =~= es.drop_first());
        }
    } else {
        assert(es2[0] == es[0]);
        if es[0].sym@ != sym {
            assert(es2.drop_first() =~= es.drop_first().update(j - 1, e2));
            assert(forall|p: int| 0 <= p < j - 1 ==> es.drop_first()[p] == #[trigger] es[p + 1]);
            assert(es.drop_first()[j - 1] == es[j]);
            lemma_price_in_update(es.drop_first(), j - 1, e2, sym);
        }
    }
}

proof fn lemma_price_in_push(es: Seq<PriceEntry>, e2: PriceEntry, sym: Seq<char>)
    requires
        forall|p: int| 0 <= p < es.len() ==> (#[trigger] es[p]).sym@ != e2.sym@,
    ensures
        price_in(es.push(e2), sym) == if sym == e2.sym@ {
            e2.price as int
        } else {
            price_in(es, sym)
        },
    decreases es.len(),
{
    let es2 = es.push(e2);
    assert(es2.len() == es.len() + 1);
    if es.len() == 0 {
        assert(es2[0] == e2);
        assert(es2.drop_first() =~= Seq::<PriceEntry>::empty());
        assert(price_in(es2.drop_first(), sym) == 0);
        assert(price_in(es, sym) == 0);
    } else {
        assert(es2[0] == es[0]);
        if es[0].sym@ != sym {
            assert(es2.drop_first() =~= es.drop_first().push(e2));
            assert(forall|p: int|
                0 <= p < es.len() - 1 ==> es.drop_first()[p] == #[trigger] es[p + 1]);
            lemma_price_in_push(es.drop_first(), e2, sym);
        }
    }
}

impl PriceTable {
    /// The configured price of the atomic symbol `sym`, zero when absent.
    pub closed spec fn price_of(self, sym: Seq<char>) -> int {
        price_in(self.entries@, sym)
    }

    /// An empty table: every symbol prices at zero.
    pub fn new() -> (t: PriceTable)
        ensures
            forall|s: Seq<char>| #[trigger] t.price_of(s) == 0,
    {
        PriceTable { entries: Vec::new() }
    }

    /// Set the price of `sym` to exactly `price`, overwriting an earlier
    /// entry for the same symbol.
    pub fn set_price(&mut self, sym: &str, price: u64)
        ensures
            forall|s: Seq<char>| #[trigger] final(self).price_of(s) == (if s == sym@ {
                price as int
            } else {
                old(self).price_of(s)
            }),
    {
        let ghost es0 = self.entries@;
        let n = self.entries.len();
        let mut i: usize = 0;
        while i < n
            invariant
                i <= n,
                n == self.entries@.len(),
                self.entries@ == es0,
                old(self).entries@ == es0,
                forall|j: int| 0 <= j < i ==> (#[trigger] es0[j]).sym@ != sym@,
            decreases n - i,
        {
            if str_eq(self.entries[i].sym.as_str(), sym) {
                self.entries[i].price = price;
                proof {
                    let e2 = self.entries@[i as int];
                    assert(self.entries@ == es0.update(i as int, e2));
                    assert(e2.sym == es0[i as int].sym);
                    assert forall|s: Seq<char>| #[trigger] self.price_of(s) == (if s == sym@ {
                        price as int
                    } else {
                        old(self).price_of(s)
                    }) by {
                        lemma_price_in_update(es0, i as int, e2, s);
                    }
                }
                return ;
            }
            i = i + 1;
        }
        let entry = PriceEntry { sym: sym.to_owned(), price };
        self.entries.push(entry);
        proof {
            let e2 = self.entries@[self.entries@.len() - 1];
            assert(self.entries@ == es0.push(e2));
            assert(e2.sym@ == sym@);
            assert forall|s: Seq<char>| #[trigger] self.price_of(s) == (if s == sym@ {
                price as int
            } else {
                old(self).price_of(s)
            }) by {
                lemma_price_in_push(es0, e2, s);
            }
        }
    }

    /// The configured price of `sym`, zero when absent.  Reading never
    /// changes the table.
    pub fn get_price(&self, sym: &str) -> (r: u64)
        ensures
            r as int == self.price_of(sym@),
    {
        let n = self.entries.len();
        let mut i: usize = 0;
        proof {
            assert(self.entries@.skip(0) =~= self.entries@);
        }
        while i < n
            invariant
                i <= n,
                n == self.entries@.len(),
                price_in(self.entries@, sym@) == price_in(self.entries@.skip(i as int), sym@),
            decreases n - i,
        {
            if str_eq(self.entries[i].sym.as_str(), sym) {
                proof {
                    assert(self.entries@.skip(i as int)[0] == self.entries@[i as int]);
                }
                return self.entries[i].price;
            }
            proof {
                assert(self.entries@.skip(i as int)[0] == self.entries@[i as int]);
                assert(self.entries@.skip(i as int).drop_first() =~= self.entries@.skip(i + 1));
            }
            i = i + 1;
        }
        proof {
            assert(self.entries@.skip(n as int) =~= Seq::<PriceEntry>::empty());
        }
        0
    }
}

/// What the price oracle answers for token `t`: the configured price of an
/// atomic token; for a minted share, the proportional claim
/// `(p0*R0 + p1*R1) / supply`, truncating, or a typed error when the
/// supply is zero or a value does not fit the machine word.
pub open spec fn price_res(s: State, tbl: PriceTable, t: Tok) -> Result<int, TransitionError> {
    match t {
        Tok::Atomic { sym } => Result::Ok(tbl.price_of(sym)),
        Tok::Minted { sym0, sym1 } => {
            let ta = Tok::Atomic { sym: sym0 };
            let tb = Tok::Atomic { sym: sym1 };
            let l = s.supply(t);
            if l > u64::MAX {
                Result::Err(TransitionError::Overflow)
            } else if l == 0 {
                Result::Err(TransitionError::DegenerateSupply)
            } else {
                let num = tbl.price_of(sym0) * s.res(ta, tb) + tbl.price_of(sym1) * s.res(
                    tb,
                    ta,
                );
                if num > u128::MAX {
                    Result::Err(TransitionError::Overflow)
                } else if num / l > u64::MAX {
                    Result::Err(TransitionError::Overflow)
                } else {
                    Result::Ok(num / l)
                }
            }
        },
    }
}

/// The unit price of `t` in state `s` under the configured `table`:
/// exactly `price_res`, with each error on exactly the input it names.
/// Reading never changes the state or the table.
pub fn price_oracle(s: &State, table: &PriceTable, t: &Token) -> (r: Result<
    u64,
    TransitionError,
>)
    ensures
        match r {
            Ok(v) => price_res(*s, *table, t@) == Result::<int, TransitionError>::Ok(v as int),
            Err(e) => price_res(*s, *table, t@) == Result::<int, TransitionError>::Err(e),
        },
{
    match t {
        Token::Atomic(sym) => Ok(table.get_price(sym.as_str())),
        Token::Minted(s0, s1) => {
            let l = match s.token_supply(t) {
                None => {
                    return Err(TransitionError::Overflow);
                },
                Some(l) => l,
            };
            if l == 0 {
                return Err(TransitionError::DegenerateSupply);
            }
            let ta = Token::Atomic(s0.clone());
            let tb = Token::Atomic(s1.clone());
            let p0 = table.get_price(s0.as_str());
            let p1 = table.get_price(s1.as_str());
            let r0 = s.get_reserve(&ta, &tb);
            let r1 = s.get_reserve(&tb, &ta);
            proof {
                lemma_u64_products_fit(p0 as int, r0 as int, p1 as int, r1 as int);
            }
            let num0: u128 = (p0 as u128) * (r0 as u128);
            let num1: u128 = (p1 as u128) * (r1 as u128);
            if num0 > u128::MAX - num1 {
                return Err(TransitionError::Overflow);
            }
            let num = num0 + num1;
            let q = num / (l as u128);
            if q > (u64::MAX as u128) {
                return Err(TransitionError::Overflow);
            }
            Ok(q as u64)
        },
    }
}

/// The value of a list of balance entries on top of a running total
/// `acc`: each entry adds `price * amount`, and the first entry whose
/// price is undefined, or whose addition would pass the 128-bit limit,
/// stops the sum with its error.
pub(crate) open spec fn wealth_balances(
    s: State,
    tbl: PriceTable,
    bs: Seq<Balance>,
    acc: int,
) -> Result<int, TransitionError>
    decreases bs.len(),
{
    if bs.len() == 0 {
        Result::Ok(acc)
    } else {
        match price_res(s, tbl, bs[0].token@) {
            Result::Err(e) => Result::Err(e),
            Result::Ok(p) => {
                let acc2 = acc + p * bs[0].value;
                if acc2 > u128::MAX {
                    Result::Err(TransitionError::Overflow)
                } else {
                    wealth_balances(s, tbl, bs.drop_first(), acc2)
                }
            },
        }
    }
}

/// The value of a list of wallets on top of a running total, wallet by
/// wallet, entry by entry.
pub(crate) open spec fn wealth_wallets(
    s: State,
    tbl: PriceTable,
    ws: Seq<Wallet>,
    acc: int,
) -> Result<int, TransitionError>
    decreases ws.len(),
{
    if ws.len() == 0 {
        Result::Ok(acc)
    } else {
        match wealth_balances(s, tbl, ws[0].balances@, acc) {
            Result::Err(e) => Result::Err(e),
            Result::Ok(a2) => wealth_wallets(s, tbl, ws.drop_first(), a2),
        }
    }
}

/// The balance entries of the first wallet owned by `u`, empty if none.
pub(crate) open spec fn user_balances(ws: Seq<Wallet>, u: Seq<char>) -> Seq<Balance>
    decreases ws.len(),
{
    if ws.len() == 0 {
        Seq::empty()
    } else if ws[0].user@ == u {
        ws[0].balances@
    } else {
        user_balances(ws.drop_first(), u)
    }
}

/// Sum the value of `bals` on top of `start`, stopping with the first
/// undefined price or 128-bit overflow.
fn wealth_of_balances(s: &State, table: &PriceTable, bals: &Vec<Balance>, start: u128) -> (r:
    Result<u128, TransitionError>)
    ensures
        match r {
            Ok(v) => wealth_balances(*s, *table, bals@, start as int) == Result::<
                int,
                TransitionError,
            >::Ok(v as int),
            Err(e) => wealth_balances(*s, *table, bals@, start as int) == Result::<
                int,
                TransitionError,
            >::Err(e),
        },
{
    let n = bals.len();
    let mut acc: u128 = start;
    let mut j: usize = 0;
    proof {
        assert(bals@.skip(0) =~= bals@);
    }
    while j < n
        invariant
            j <= n,
            n == bals@.len(),
            wealth_balances(*s, *table, bals@, start as int) == wealth_balances(
                *s,
                *table,
                bals@.skip(j as int),
                acc as int,
            ),
        decreases n - j,
    {
        proof {
            assert(bals@.skip(j as int)[0] == bals@[j as int]);
            assert(bals@.skip(j as int).drop_first() =~= bals@.skip(j + 1));
        }
        let p = match price_oracle(s, table, &bals[j].token) {
            Err(e) => {
                return Err(e);
            },
            Ok(p) => p,
        };
        proof {
            lemma_u64_products_fit(p as int, bals@[j as int].value as int, 0, 0);
        }
        let term: u128 = (p as u128) * (bals[j].value as u128);
        if acc > u128::MAX - term {
            return Err(TransitionError::Overflow);
        }
        acc = acc + term;
        j = j + 1;
    }
    proof {
        assert(bals@.skip(n as int) =~= Seq::<Balance>::empty());
    }
    Ok(acc)
}

impl State {
    /// The total value of every balance held in any wallet, under the
    /// configured prices: the sum of `price * amount`, or the first typed
    /// error the sum runs into.
    pub closed spec fn wealth(self, tbl: PriceTable) -> Result<int, TransitionError> {
        wealth_wallets(self, tbl, self.wallets@, 0)
    }

    /// The total value of the balances held by one user, under the
    /// configured prices.
    pub closed spec fn wealth_of(self, tbl: PriceTable, u: Seq<char>) -> Result<
        int,
        TransitionError,
    > {
        wealth_balances(self, tbl, user_balances(self.wallets@, u), 0)
    }

    /// Sum `price * amount` over every wallet and every balance entry.
    /// Exactly `wealth`; reading never changes the state.
    pub fn net_wealth(&self, table: &PriceTable) -> (r: Result<u128, TransitionError>)
        ensures
            match r {
                Ok(v) => self.wealth(*table) == Result::<int, TransitionError>::Ok(v as int),
                Err(e) => self.wealth(*table) == Result::<int, TransitionError>::Err(e),
            },
    {
        let n = self.wallets.len();
        let mut acc: u128 = 0;
        let mut i: usize = 0;
        proof {
            assert(self.wallets@.skip(0) =~= self.wallets@);
        }
        while i < n
            invariant
                i <= n,
                n == self.wallets@.len(),
                wealth_wallets(*self, *table, self.wallets@, 0) == wealth_wallets(
                    *self,
                    *table,
                    self.wallets@.skip(i as int),
                    acc as int,
                ),
            decreases n - i,
        {
            proof {
                assert(self.wallets@.skip(i as int)[0] == self.wallets@[i as int]);
                assert(self.wallets@.skip(i as int).drop_first() =~= self.wallets@.skip(i + 1));
            }
            acc = match wealth_of_balances(self, table, &self.wallets[i].balances, acc) {
                Err(e) => {
                    return Err(e);
                },
                Ok(a) => a,
            };
            i = i + 1;
        }
        proof {
            assert(self.wallets@.skip(n as int) =~= Seq::<Wallet>::empty());
        }
        Ok(acc)
    }

    /// Sum `price * amount` over one user's balance entries.  Exactly
    /// `wealth_of`; reading never changes the state.
    pub fn net_wealth_of(&self, user: &User, table: &PriceTable) -> (r: Result<
        u128,
        TransitionError,
    >)
        ensures
            match r {
                Ok(v) => self.wealth_of(*table, user@) == Result::<int, TransitionError>::Ok(
                    v as int,
                ),
                Err(e) => self.wealth_of(*table, user@) == Result::<int, TransitionError>::Err(e),
            },
    {
        let n = self.wallets.len();
        let mut i: usize = 0;
        proof {
            assert(self.wallets@.skip(0) =~= self.wallets@);
        }
        while i < n
            invariant
                i <= n,
                n == self.wallets@.len(),
                user_balances(self.wallets@, user@) == user_balances(
                    self.wallets@.skip(i as int),
                    user@,
                ),
            decreases n - i,
        {
            proof {
                assert(self.wallets@.skip(i as int)[0] == self.wallets@[i as int]);
                assert(self.wallets@.skip(i as int).drop_first() =~= self.wallets@.skip(i + 1));
            }
            if user_eq(&self.wallets[i].user, user) {
                return wealth_of_balances(self, table, &self.wallets[i].balances, 0);
            }
            i = i + 1;
        }
        proof {
            assert(self.wallets@.skip(n as int) =~= Seq::<Wallet>::empty());
        }
        Ok(0)
    }
}

/// Products of two 64-bit values fit a 128-bit word.
proof fn lemma_u64_products_fit(a: int, b: int, c: int, d: int)
    requires
        0 <= a <= u64::MAX,
        0 <= b <= u64::MAX,
        0 <= c <= u64::MAX,
        0 <= d <= u64::MAX,
    ensures
        0 <= a * b <= u128::MAX,
        0 <= c * d <= u128::MAX,
{
    assert(0 <= a * b && a * b <= (u64::MAX as int) * (u64::MAX as int) && 0 <= c * d && c * d
        <= (u64::MAX as int) * (u64::MAX as int) && (u64::MAX as int) * (u64::MAX as int)
        < u128::MAX as int) by (nonlinear_arith)
        requires
            0 <= a <= u64::MAX,
            0 <= b <= u64::MAX,
            0 <= c <= u64::MAX,
            0 <= d <= u64::MAX,
    ;
}

} // verus!
