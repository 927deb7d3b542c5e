//! Users and tokens.
//!
//! A token is either an atomic asset, identified by its symbol, or a
//! liquidity share minted from an ordered pair of atomic symbols.  Tokens
//! carry a total order — atomic tokens first, ordered by symbol; minted
//! tokens after them, ordered by their symbol pairs — which is used to store
//! every pool's token pair canonically.

use vstd::prelude::*;
use vstd::string::StrSliceExecFns;

verus! {

/// The mathematical identity of a token: the value a `Token` denotes.
pub enum Tok {
    Atomic { sym: Seq<char> },
    Minted { sym0: Seq<char>, sym1: Seq<char> },
}

/// A participant in the economy, identified by name.
#[derive(Debug)]
pub struct User {
    name: String,
}

impl View for User {
    type V = Seq<char>;

    closed spec fn view(&self) -> Seq<char> {
        self.name@
    }
}

impl User {
    pub fn new(name: &str) -> (u: User)
        ensures
            u@ == name@,
    {
        User { name: name.to_owned() }
    }

    /// The user's name.
    pub fn name(&self) -> (r: &str)
        ensures
            r@ == self@,
    {
        self.name.as_str()
    }
}

/// Whether two users are the same participant.
pub fn user_eq(a: &User, b: &User) -> (r: bool)
    ensures
        r == (a@ == b@),
{
    a.name == b.name
}

pub(crate) fn user_clone(u: &User) -> (r: User)
    ensures
        r@ == u@,
{
    User { name: u.name.clone() }
}

/// A fungible asset: an atomic asset with a symbol, or a liquidity share
/// minted from a pair of atomic symbols.
#[derive(Debug)]
pub enum Token {
    Atomic(String),
    Minted(String, String),
}

impl View for Token {
    type V = Tok;

    open spec fn view(&self) -> Tok {
        match self {
            Token::Atomic(s) => Tok::Atomic { sym: s@ },
            Token::Minted(s0, s1) => Tok::Minted { sym0: s0@, sym1: s1@ },
        }
    }
}

/// Whether two tokens denote the same asset.
pub fn token_eq(a: &Token, b: &Token) -> (r: bool)
    ensures
        r == (a@ == b@),
{
    match (a, b) {
        (Token::Atomic(x), Token::Atomic(y)) => *x == *y,
        (Token::Minted(x0, x1), Token::Minted(y0, y1)) => *x0 == *y0 && *x1 == *y1,
        _ => false,
    }
}

pub(crate) fn token_clone(t: &Token) -> (r: Token)
    ensures
        r == *t,
{
    match t {
        Token::Atomic(s) => Token::Atomic(s.clone()),
        Token::Minted(s0, s1) => Token::Minted(s0.clone(), s1.clone()),
    }
}

/// Whether the token is an atomic asset (not a minted liquidity share).
pub fn is_atomic(t: &Token) -> (r: bool)
    ensures
        r == (t@ is Atomic),
{
    match t {
        Token::Atomic(_) => true,
        Token::Minted(_, _) => false,
    }
}

/// Lexicographic order on character sequences.
pub open spec fn seq_char_lt(a: Seq<char>, b: Seq<char>) -> bool
    decreases a.len(),
{
    if b.len() == 0 {
        false
    } else if a.len() == 0 {
        true
    } else if a[0] == b[0] {
        seq_char_lt(a.drop_first(), b.drop_first())
    } else {
        (a[0] as u32) < (b[0] as u32)
    }
}

/// The lexicographic order relates any two distinct character sequences.
pub proof fn lemma_seq_char_lt_total(a: Seq<char>, b: Seq<char>)
    ensures
        a != b ==> seq_char_lt(a, b) || seq_char_lt(b, a),
    decreases a.len(),
{
    if b.len() == 0 {
        if a.len() == 0 {
            assert(a =~= b);
        } else {
            assert(seq_char_lt(b, a));
        }
    } else if a.len() == 0 {
    } else if a[0] == b[0] {
        lemma_seq_char_lt_total(a.drop_first(), b.drop_first());
        if a.drop_first() == b.drop_first() {
            assert(a.drop_first().len() == a.len() - 1);
            assert(b.drop_first().len() == b.len() - 1);
            assert(a.len() == b.len());
            assert forall|i: int| 0 <= i < a.len() implies a[i] == b[i] by {
                if i > 0 {
                    assert(a[i] == a.drop_first()[i - 1]);
                    assert(b[i] == b.drop_first()[i - 1]);
                }
            }
            assert(a =~= b);
        }
    } else {
        if (a[0] as u32) == (b[0] as u32) {
            vstd::utf8::char_u32_cast(a[0], a[0] as u32);
            vstd::utf8::char_u32_cast(b[0], b[0] as u32);
            assert(a[0] == b[0]);
        }
    }
}

/// The total order on tokens: atomic tokens first, ordered by symbol;
/// minted tokens after all atomic tokens, ordered by their symbol pairs.
pub open spec fn tok_lt(a: Tok, b: Tok) -> bool {
    match (a, b) {
        (Tok::Atomic { sym: x }, Tok::Atomic { sym: y }) => seq_char_lt(x, y),
        (Tok::Atomic { .. }, Tok::Minted { .. }) => true,
        (Tok::Minted { .. }, Tok::Atomic { .. }) => false,
        (Tok::Minted { sym0: x0, sym1: x1 }, Tok::Minted { sym0: y0, sym1: y1 }) => {
            seq_char_lt(x0, y0) || (x0 == y0 && seq_char_lt(x1, y1))
        },
    }
}

/// The token order relates any two distinct tokens.
pub proof fn lemma_tok_lt_total(a: Tok, b: Tok)
    ensures
        a != b ==> tok_lt(a, b) || tok_lt(b, a),
{
    match (a, b) {
        (Tok::Atomic { sym: x }, Tok::Atomic { sym: y }) => {
            lemma_seq_char_lt_total(x, y);
        },
        (Tok::Minted { sym0: x0, sym1: x1 }, Tok::Minted { sym0: y0, sym1: y1 }) => {
            lemma_seq_char_lt_total(x0, y0);
            lemma_seq_char_lt_total(x1, y1);
        },
        _ => {},
    }
}

/// Whether two strings spell the same characters.
pub fn str_eq(a: &str, b: &str) -> (r: bool)
    ensures
        r == (a@ == b@),
{
    let la = a.unicode_len();
    let lb = b.unicode_len();
    if la != lb {
        return false;
    }
    let mut i: usize = 0;
    while i < la
        invariant
            i <= la,
            la == a@.len(),
            la == b@.len(),
            forall|k: int| 0 <= k < i ==> a@[k] == b@[k],
        decreases la - i,
    {
        if a.get_char(i) != b.get_char(i) {
            return false;
        }
        i = i + 1;
    }
    proof {
        assert(a@ =~= b@);
    }
    true
}

/// Lexicographic comparison of two strings, by characters.
fn str_lt(a: &str, b: &str) -> (r: bool)
    ensures
        r == seq_char_lt(a@, b@),
{
    let la = a.unicode_len();
    let lb = b.unicode_len();
    let mut i: usize = 0;
    proof {
        assert(a@.skip(0) =~= a@);
        assert(b@.skip(0) =~= b@);
    }
    while i < la && i < lb
        invariant
            i <= la,
            i <= lb,
            la == a@.len(),
            lb == b@.len(),
            seq_char_lt(a@, b@) == seq_char_lt(a@.skip(i as int), b@.skip(i as int)),
        decreases la - i,
    {
        let ca = a.get_char(i);
        let cb = b.get_char(i);
        if ca != cb {
            return (ca as u32) < (cb as u32);
        }
        proof {
            assert(a@.skip(i as int).drop_first() =~= a@.skip(i + 1));
            assert(b@.skip(i as int).drop_first() =~= b@.skip(i + 1));
        }
        i = i + 1;
    }
    proof {
        assert(a@.skip(i as int).len() == la - i);
        assert(b@.skip(i as int).len() == lb - i);
    }
    la < lb
}

/// Comparison of two tokens in the total token order.
pub fn token_lt(a: &Token, b: &Token) -> (r: bool)
    ensures
        r == tok_lt(a@, b@),
{
    match (a, b) {
        (Token::Atomic(x), Token::Atomic(y)) => str_lt(x.as_str(), y.as_str()),
        (Token::Atomic(_), Token::Minted(_, _)) => true,
        (Token::Minted(_, _), Token::Atomic(_)) => false,
        (Token::Minted(x0, x1), Token::Minted(y0, y1)) => {
            if str_lt(x0.as_str(), y0.as_str()) {
                true
            } else if *x0 == *y0 {
                str_lt(x1.as_str(), y1.as_str())
            } else {
                false
            }
        },
    }
}

impl Token {
    /// Mint the liquidity-share token for a pair of distinct atomic tokens.
    /// Minting anything else is a construction-time fault, ruled out by the
    /// precondition; the transitions reject such a pair with a typed error
    /// before calling this.
    pub fn mint(token0: &Token, token1: &Token) -> (r: Token)
        requires
            token0@ is Atomic,
            token1@ is Atomic,
            token0@ != token1@,
        ensures
            r@ == (Tok::Minted { sym0: token0@->Atomic_sym, sym1: token1@->Atomic_sym }),
    {
        match (token0, token1) {
            (Token::Atomic(s0), Token::Atomic(s1)) => Token::Minted(s0.clone(), s1.clone()),
            _ => vstd::pervasive::unreached(),
        }
    }
}

/// Order a pair of distinct tokens by the total token order.
pub fn order_tokens<'a>(t0: &'a Token, t1: &'a Token) -> (r: (&'a Token, &'a Token))
    requires
        t0@ != t1@,
    ensures
        tok_lt(r.0@, r.1@),
        r.0@ != r.1@,
        (r.0@ == t0@ && r.1@ == t1@) || (r.0@ == t1@ && r.1@ == t0@),
{
    proof {
        lemma_tok_lt_total(t0@, t1@);
    }
    if token_lt(t0, t1) {
        (t0, t1)
    } else {
        (t1, t0)
    }
}

/// Order a pair of distinct tokens by the total token order, keeping each
/// reserve amount with its token.
pub fn order_token_reserves<'a>(t0: &'a Token, r0: u64, t1: &'a Token, r1: u64) -> (r: (
    &'a Token,
    u64,
    &'a Token,
    u64,
))
    requires
        t0@ != t1@,
    ensures
        tok_lt(r.0@, r.2@),
        r.0@ != r.2@,
        (r.0@ == t0@ && r.1 == r0 && r.2@ == t1@ && r.3 == r1) || (r.0@ == t1@ && r.1 == r1
            && r.2@ == t0@ && r.3 == r0),
{
    proof {
        lemma_tok_lt_total(t0@, t1@);
    }
    if token_lt(t0, t1) {
        (t0, r0, t1, r1)
    } else {
        (t1, r1, t0, r0)
    }
}

} // verus!
