use vstd::prelude::*;

use crate::lex::Token;

verus! {

/// A parse failure: either a token that starts no statement, or running out
/// of tokens while one more was required.
#[derive(Clone, Copy, Debug, PartialEq, Eq, Structural)]
pub enum Error {
    UnexpectedToken(Token),
    EndOfInput,
}

/// Severity of a parse failure. A recoverable mismatch lets the caller try
/// another alternative or treat the enclosing block as finished; a fatal one
/// aborts parsing at once. Only the recoverable severity is produced today;
/// the fatal severity is an extension point.
#[derive(Clone, Copy, Debug)]
pub enum ParserError<E> {
    Recoverable(E),
    Fatal(E),
}

pub type ParserResult<I, O, E> = Result<(I, O), ParserError<E>>;

pub type Tokens<'a> = &'a [Token];

/// Attribute slot attached to every node, reserved for future metadata.
#[derive(Clone, Copy, Debug, Default, PartialEq, Eq, Structural)]
pub struct Attr {}

/// An ordered sequence of statements; execution order is significant.
#[derive(Debug, PartialEq)]
pub struct NodeBlock {
    pub attr: Attr,
    pub stats: Vec<NodeStatement>,
}

/// One statement together with its attribute slot.
#[derive(Debug, PartialEq)]
pub struct NodeStatement {
    pub attr: Attr,
    pub stat: Statement,
}

/// The statement forms of the language. A loop exclusively owns its body.
#[derive(Debug, PartialEq)]
pub enum Statement {
    MoveL(usize),
    MoveR(usize),
    Add(usize),
    Sub(usize),
    Read,
    Write,
    Loop(Box<NodeBlock>),
}

pub type Prog = NodeBlock;

pub type Ast = NodeBlock;

/// The token sequence that a statement was parsed from.
pub open spec fn stmt_tokens(s: Statement) -> Seq<Token>
    decreases s,
{
    match s {
        Statement::MoveL(n) => seq![Token::MoveL(n)],
        Statement::MoveR(n) => seq![Token::MoveR(n)],
        Statement::Add(n) => seq![Token::Inc(n)],
        Statement::Sub(n) => seq![Token::Dec(n)],
        Statement::Read => seq![Token::Read],
        Statement::Write => seq![Token::Write],
        Statement::Loop(b) => seq![Token::JmpZero] + stats_tokens(b.stats@) + seq![
            Token::JmpNoZero,
        ],
    }
}

/// The token sequence that a whole statement list was parsed from.
pub open spec fn stats_tokens(ss: Seq<NodeStatement>) -> Seq<Token>
    decreases ss,
{
    if ss.len() == 0 {
        Seq::empty()
    } else {
        stmt_tokens(ss[0].stat) + stats_tokens(ss.drop_first())
    }
}

/// The token sequence that a block was parsed from.
pub open spec fn block_tokens(b: NodeBlock) -> Seq<Token> {
    stats_tokens(b.stats@)
}

/// How many leading tokens one statement parse consumes, or the error that
/// makes the attempt fail. Mirrors recursive descent: a loop consumes its
/// opening bracket, a whole inner block, and the closing bracket.
pub open spec fn stmt_consumed(t: Seq<Token>) -> Result<int, Error>
    decreases t.len(), 0int,
{
    if t.len() == 0 {
        Err(Error::EndOfInput)
    } else {
        match t[0] {
            Token::JmpZero => {
                let k = 1 + block_consumed(t.skip(1));
                if k < t.len() && t[k] == Token::JmpNoZero {
                    Ok(k + 1)
                } else if k >= t.len() {
                    Err(Error::EndOfInput)
                } else {
                    Err(Error::UnexpectedToken(t[k]))
                }
            },
            Token::JmpNoZero => Err(Error::UnexpectedToken(Token::JmpNoZero)),
            _ => Ok(1),
        }
    }
}

/// How many leading tokens a block parse consumes. A block is greedy and
/// total: it stops (successfully) at the first token that starts no
/// statement.
pub open spec fn block_consumed(t: Seq<Token>) -> int
    decreases t.len(), 1int,
{
    match stmt_consumed(t) {
        Ok(k) => if 0 < k <= t.len() {
            k + block_consumed(t.skip(k))
        } else {
            0
        },
        Err(_) => 0,
    }
}

/// A successful statement parse consumes between one token and the whole
/// input.
pub proof fn lemma_stmt_consumed_bounds(t: Seq<Token>)
    ensures
        stmt_consumed(t) is Ok ==> 1 <= stmt_consumed(t)->Ok_0 <= t.len(),
    decreases t.len(), 0int,
{
    if t.len() > 0 && t[0] == Token::JmpZero {
        lemma_block_consumed_bounds(t.skip(1));
    }
}

/// A block parse consumes between zero tokens and the whole input.
pub proof fn lemma_block_consumed_bounds(t: Seq<Token>)
    ensures
        0 <= block_consumed(t) <= t.len(),
    decreases t.len(), 1int,
{
    lemma_stmt_consumed_bounds(t);
    match stmt_consumed(t) {
        Ok(k) => {
            if 0 < k <= t.len() {
                lemma_block_consumed_bounds(t.skip(k));
            }
        },
        Err(_) => {},
    }
}

/// A statement parse that succeeds is unaffected by tokens appended after
/// the input: it consumes the same tokens.
pub proof fn lemma_stmt_consumed_extend(t: Seq<Token>, r: Seq<Token>)
    requires
        stmt_consumed(t) is Ok,
    ensures
        stmt_consumed(t + r) == stmt_consumed(t),
    decreases t.len(), 0int,
{
    lemma_stmt_consumed_bounds(t);
    assert((t + r)[0] == t[0]);
    match t[0] {
        Token::JmpZero => {
            let j = block_consumed(t.skip(1));
            let k = 1 + j;
            lemma_block_consumed_bounds(t.skip(1));
            assert(t.skip(1)[j] == t[k]);
            lemma_block_consumed_stop_token(t.skip(1), r);
            assert(t.skip(1) + r =~= (t + r).skip(1));
            assert((t + r)[k] == t[k]);
        },
        _ => {},
    }
}

/// A block parse that stops at a closing bracket still stops there when
/// tokens are appended after the input.
pub proof fn lemma_block_consumed_stop_token(u: Seq<Token>, r: Seq<Token>)
    requires
        0 <= block_consumed(u) < u.len(),
        u[block_consumed(u)] == Token::JmpNoZero,
    ensures
        block_consumed(u + r) == block_consumed(u),
    decreases u.len(), 1int,
{
    lemma_stmt_consumed_bounds(u);
    match stmt_consumed(u) {
        Ok(k) => {
            lemma_stmt_consumed_extend(u, r);
            lemma_block_consumed_bounds(u.skip(k));
            assert(u.skip(k)[block_consumed(u) - k] == u[block_consumed(u)]);
            lemma_block_consumed_stop_token(u.skip(k), r);
            assert(u.skip(k) + r =~= (u + r).skip(k));
        },
        Err(_) => {
            assert((u + r)[0] == u[0]);
            assert(stmt_consumed(u + r) is Err);
        },
    }
}

/// A block parse that consumes its whole input continues seamlessly into
/// anything appended after it.
pub proof fn lemma_block_consumed_all_extend(t: Seq<Token>, r: Seq<Token>)
    requires
        block_consumed(t) == t.len(),
    ensures
        block_consumed(t + r) == t.len() + block_consumed(r),
    decreases t.len(), 2int,
{
    if t.len() == 0 {
        assert(t + r =~= r);
    } else {
        lemma_stmt_consumed_bounds(t);
        match stmt_consumed(t) {
            Ok(k) => {
                lemma_stmt_consumed_extend(t, r);
                lemma_block_consumed_bounds(t.skip(k));
                lemma_block_consumed_all_extend(t.skip(k), r);
                assert(t.skip(k) + r =~= (t + r).skip(k));
            },
            Err(_) => {},
        }
    }
}

/// An unmatched opening bracket: when input that parses completely is
/// followed by one more `[`, the whole input no longer parses, and the
/// reported mismatch is running out of input.
pub proof fn lemma_unmatched_open(t: Seq<Token>)
    requires
        block_consumed(t) == t.len(),
    ensures
        block_consumed(t + seq![Token::JmpZero]) == t.len(),
        stmt_consumed((t + seq![Token::JmpZero]).skip(t.len() as int)) == Err::<int, Error>(
            Error::EndOfInput,
        ),
{
    let z = seq![Token::JmpZero];
    assert(z.skip(1) =~= Seq::<Token>::empty());
    assert(stmt_consumed(z) == Err::<int, Error>(Error::EndOfInput));
    lemma_block_consumed_all_extend(t, z);
    assert((t + z).skip(t.len() as int) =~= z);
}

/// A stray closing bracket with no enclosing loop: when input that parses
/// completely is followed by a `]`, parsing stops right there, and the
/// reported mismatch names the unexpected token.
pub proof fn lemma_stray_close(t: Seq<Token>, w: Seq<Token>)
    requires
        block_consumed(t) == t.len(),
    ensures
        block_consumed(t + seq![Token::JmpNoZero] + w) == t.len(),
        stmt_consumed((t + seq![Token::JmpNoZero] + w).skip(t.len() as int)) == Err::<int, Error>(
            Error::UnexpectedToken(Token::JmpNoZero),
        ),
{
    let z = seq![Token::JmpNoZero] + w;
    assert(z[0] == Token::JmpNoZero);
    assert(stmt_consumed(z) == Err::<int, Error>(Error::UnexpectedToken(Token::JmpNoZero)));
    assert(t + seq![Token::JmpNoZero] + w =~= t + z);
    lemma_block_consumed_all_extend(t, z);
    assert((t + z).skip(t.len() as int) =~= z);
}


/// The nesting contribution of one token: an opening bracket descends one
/// level, a closing bracket ascends one.
pub open spec fn bracket_delta(t: Token) -> int {
    match t {
        Token::JmpZero => 1,
        Token::JmpNoZero => -1,
        _ => 0,
    }
}

/// The net bracket nesting over a whole token sequence.
pub open spec fn bracket_sum(t: Seq<Token>) -> int
    decreases t,
{
    if t.len() == 0 {
        0
    } else {
        bracket_delta(t[0]) + bracket_sum(t.drop_first())
    }
}

/// The brackets of a token sequence pair up: the nesting never goes below
/// zero and ends at zero.
pub open spec fn brackets_ok(t: Seq<Token>) -> bool {
    bracket_sum(t) == 0 && forall|i: int|
        0 <= i <= t.len() ==> bracket_sum(#[trigger] t.take(i)) >= 0
}

proof fn lemma_bracket_sum_concat(a: Seq<Token>, b: Seq<Token>)
    ensures
        bracket_sum(a + b) == bracket_sum(a) + bracket_sum(b),
    decreases a,
{
    if a.len() == 0 {
        assert(a + b =~= b);
    } else {
        assert((a + b)[0] == a[0]);
        assert((a + b).drop_first() =~= a.drop_first() + b);
        lemma_bracket_sum_concat(a.drop_first(), b);
    }
}

proof fn lemma_bracket_sum_one(x: Token)
    ensures
        bracket_sum(seq![x]) == bracket_delta(x),
{
    assert(seq![x].len() == 1);
    assert(seq![x][0] == x);
    assert(seq![x].drop_first() =~= Seq::<Token>::empty());
    assert(bracket_sum(Seq::<Token>::empty()) == 0);
}

proof fn lemma_sum_take_split(t: Seq<Token>, i: int, j: int)
    requires
        0 <= i <= j <= t.len(),
    ensures
        bracket_sum(t.take(j)) == bracket_sum(t.take(i)) + bracket_sum(t.subrange(i, j)),
{
    assert(t.take(j) =~= t.take(i) + t.subrange(i, j));
    lemma_bracket_sum_concat(t.take(i), t.subrange(i, j));
}

/// The position where the nesting first falls below zero.
spec fn first_drop(u: Seq<Token>, i: int) -> int
    decreases u.len() - i,
{
    if i < 0 || i >= u.len() {
        i
    } else if bracket_sum(u.take(i + 1)) < 0 {
        i
    } else {
        first_drop(u, i + 1)
    }
}

proof fn lemma_first_drop(u: Seq<Token>, i: int)
    requires
        0 <= i <= u.len(),
        bracket_sum(u) < 0,
        bracket_sum(u.take(i)) >= 0,
    ensures
        ({
            let m = first_drop(u, i);
            &&& i <= m < u.len()
            &&& u[m] == Token::JmpNoZero
            &&& bracket_sum(u.take(m)) == 0
            &&& bracket_sum(u.take(m + 1)) == -1
            &&& forall|j: int| i <= j <= m ==> bracket_sum(#[trigger] u.take(j)) >= 0
        }),
    decreases u.len() - i,
{
    if i == u.len() {
        assert(u.take(i) =~= u);
    } else {
        assert(u.take(i + 1) =~= u.take(i) + seq![u[i]]);
        lemma_bracket_sum_concat(u.take(i), seq![u[i]]);
        lemma_bracket_sum_one(u[i]);
        if bracket_sum(u.take(i + 1)) < 0 {
            assert(bracket_delta(u[i]) < 0);
            assert(u[i] == Token::JmpNoZero);
            assert(bracket_sum(u.take(i)) == 0);
        } else {
            lemma_first_drop(u, i + 1);
            let m = first_drop(u, i + 1);
            assert forall|j: int| i <= j <= m implies bracket_sum(#[trigger] u.take(j)) >= 0 by {
                if j == i {
                } else {
                    assert(i + 1 <= j <= m);
                }
            }
        }
    }
}

/// Balanced brackets parse successfully: a token sequence whose nesting
/// never goes below zero and ends at zero is consumed completely by the
/// outer block, so parsing it yields a program.
pub proof fn lemma_balanced_parses(t: Seq<Token>)
    requires
        brackets_ok(t),
    ensures
        block_consumed(t) == t.len(),
    decreases t.len(),
{
    if t.len() == 0 {
    } else {
        assert(t.take(1) =~= Seq::<Token>::empty() + seq![t[0]]);
        lemma_bracket_sum_concat(Seq::<Token>::empty(), seq![t[0]]);
        lemma_bracket_sum_one(t[0]);
        assert(bracket_sum(t.take(0)) == 0) by {
            assert(t.take(0) =~= Seq::<Token>::empty());
        }
        assert(bracket_sum(t.take(1)) >= 0);
        match t[0] {
            Token::JmpNoZero => {
                assert(bracket_sum(t.take(1)) == -1);
            },
            Token::JmpZero => {
                let u = t.skip(1);
                assert(t =~= t.take(1) + u);
                lemma_bracket_sum_concat(t.take(1), u);
                assert(bracket_sum(u) == -1);
                // prefixes of the tail sit one level down, so they stay
                // above minus one
                assert forall|j: int| 0 <= j <= u.len() implies bracket_sum(
                    #[trigger] u.take(j),
                ) >= -1 by {
                    assert(t.take(1 + j) =~= t.take(1) + u.take(j));
                    lemma_bracket_sum_concat(t.take(1), u.take(j));
                    assert(bracket_sum(t.take(1 + j)) >= 0);
                }
                assert(bracket_sum(u.take(0)) == 0) by {
                    assert(u.take(0) =~= Seq::<Token>::empty());
                }
                lemma_first_drop(u, 0);
                let m = first_drop(u, 0);
                let v = u.take(m);
                // the region before the matching closer is itself balanced
                assert forall|j: int| 0 <= j <= v.len() implies bracket_sum(
                    #[trigger] v.take(j),
                ) >= 0 by {
                    assert(v.take(j) =~= u.take(j));
                }
                lemma_balanced_parses(v);
                assert(u =~= v + u.skip(m));
                lemma_block_consumed_all_extend(v, u.skip(m));
                assert(u.skip(m)[0] == u[m]);
                assert(u.skip(m).len() > 0);
                assert(stmt_consumed(u.skip(m)) == Err::<int, Error>(
                    Error::UnexpectedToken(Token::JmpNoZero),
                ));
                assert(block_consumed(u.skip(m)) == 0);
                assert(block_consumed(u) == m);
                assert(u[m] == t[m + 1]);
                assert(stmt_consumed(t) == Ok::<int, Error>(m + 2));
                // what follows the closer is balanced again
                let w = t.skip(m + 2);
                assert(bracket_sum(t.take(m + 2)) == 0) by {
                    assert(t.take(m + 2) =~= t.take(1) + u.take(m + 1));
                    lemma_bracket_sum_concat(t.take(1), u.take(m + 1));
                }
                assert(bracket_sum(w) == 0) by {
                    assert(t =~= t.take(m + 2) + w);
                    lemma_bracket_sum_concat(t.take(m + 2), w);
                }
                assert forall|j: int| 0 <= j <= w.len() implies bracket_sum(
                    #[trigger] w.take(j),
                ) >= 0 by {
                    assert(t.take(m + 2 + j) =~= t.take(m + 2) + w.take(j));
                    lemma_bracket_sum_concat(t.take(m + 2), w.take(j));
                    assert(bracket_sum(t.take(m + 2 + j)) >= 0);
                }
                lemma_balanced_parses(w);
            },
            _ => {
                let u = t.skip(1);
                assert(t =~= t.take(1) + u);
                lemma_bracket_sum_concat(t.take(1), u);
                assert(bracket_sum(u) == 0);
                assert forall|j: int| 0 <= j <= u.len() implies bracket_sum(
                    #[trigger] u.take(j),
                ) >= 0 by {
                    assert(t.take(1 + j) =~= t.take(1) + u.take(j));
                    lemma_bracket_sum_concat(t.take(1), u.take(j));
                    assert(bracket_sum(t.take(1 + j)) >= 0);
                }
                lemma_balanced_parses(u);
                assert(stmt_consumed(t) == Ok::<int, Error>(1));
            },
        }
    }
}


/// The loop nesting depth of one statement.
pub open spec fn stmt_depth(s: Statement) -> int
    decreases s,
{
    match s {
        Statement::Loop(b) => 1 + stats_depth(b.stats@),
        _ => 0,
    }
}

/// The loop nesting depth of a statement list: the deepest of its members.
pub open spec fn stats_depth(ss: Seq<NodeStatement>) -> int
    decreases ss,
{
    if ss.len() == 0 {
        0
    } else {
        let h = stmt_depth(ss[0].stat);
        let r = stats_depth(ss.drop_first());
        if h >= r {
            h
        } else {
            r
        }
    }
}

/// The deepest bracket nesting a scan of `t` reaches, starting at depth
/// `cur`.
pub open spec fn max_depth_from(t: Seq<Token>, cur: int) -> int
    decreases t,
{
    if t.len() == 0 {
        cur
    } else {
        let m = max_depth_from(t.drop_first(), cur + bracket_delta(t[0]));
        if cur >= m {
            cur
        } else {
            m
        }
    }
}

proof fn lemma_mdf_ge(t: Seq<Token>, cur: int)
    ensures
        max_depth_from(t, cur) >= cur,
    decreases t,
{
    if t.len() > 0 {
        lemma_mdf_ge(t.drop_first(), cur + bracket_delta(t[0]));
    }
}

proof fn lemma_mdf_concat(a: Seq<Token>, b: Seq<Token>, cur: int)
    ensures
        max_depth_from(a + b, cur) == ({
            let ma = max_depth_from(a, cur);
            let mb = max_depth_from(b, cur + bracket_sum(a));
            if ma >= mb {
                ma
            } else {
                mb
            }
        }),
    decreases a,
{
    if a.len() == 0 {
        assert(a + b =~= b);
        lemma_mdf_ge(b, cur);
    } else {
        assert((a + b)[0] == a[0]);
        assert((a + b).drop_first() =~= a.drop_first() + b);
        lemma_mdf_concat(a.drop_first(), b, cur + bracket_delta(a[0]));
    }
}

/// The tokens of a statement or statement list have paired brackets: their
/// net nesting is zero.
proof fn lemma_stmt_tokens_sum(s: Statement)
    ensures
        bracket_sum(stmt_tokens(s)) == 0,
    decreases s,
{
    match s {
        Statement::Loop(b) => {
            lemma_stats_tokens_sum(b.stats@);
            lemma_bracket_sum_concat(
                seq![Token::JmpZero] + stats_tokens(b.stats@),
                seq![Token::JmpNoZero],
            );
            lemma_bracket_sum_concat(seq![Token::JmpZero], stats_tokens(b.stats@));
            lemma_bracket_sum_one(Token::JmpZero);
            lemma_bracket_sum_one(Token::JmpNoZero);
        },
        _ => {
            lemma_bracket_sum_one(stmt_tokens(s)[0]);
            assert(stmt_tokens(s) =~= seq![stmt_tokens(s)[0]]);
        },
    }
}

proof fn lemma_stats_tokens_sum(ss: Seq<NodeStatement>)
    ensures
        bracket_sum(stats_tokens(ss)) == 0,
    decreases ss,
{
    if ss.len() > 0 {
        lemma_stmt_tokens_sum(ss[0].stat);
        lemma_stats_tokens_sum(ss.drop_first());
        lemma_bracket_sum_concat(stmt_tokens(ss[0].stat), stats_tokens(ss.drop_first()));
    }
}

proof fn lemma_mdf_one(x: Token, cur: int)
    ensures
        max_depth_from(seq![x], cur) == (if bracket_delta(x) > 0 {
            cur + 1
        } else {
            cur
        }),
{
    assert(seq![x].len() == 1);
    assert(seq![x][0] == x);
    assert(seq![x].drop_first() =~= Seq::<Token>::empty());
    assert(max_depth_from(Seq::<Token>::empty(), cur + bracket_delta(x)) == cur + bracket_delta(
        x,
    ));
    assert(max_depth_from(seq![x], cur) == (if cur >= cur + bracket_delta(x) {
        cur
    } else {
        cur + bracket_delta(x)
    }));
}

/// The bracket nesting depth of a statement's tokens, measured from any
/// starting depth, exceeds it by exactly the statement's loop depth.
proof fn lemma_stmt_depth_tokens(s: Statement, cur: int)
    ensures
        max_depth_from(stmt_tokens(s), cur) == cur + stmt_depth(s),
        stmt_depth(s) >= 0,
    decreases s,
{
    match s {
        Statement::Loop(b) => {
            let inner = stats_tokens(b.stats@);
            lemma_stats_tokens_sum(b.stats@);
            lemma_stats_depth_tokens(b.stats@, cur + 1);
            lemma_mdf_concat(seq![Token::JmpZero] + inner, seq![Token::JmpNoZero], cur);
            lemma_mdf_concat(seq![Token::JmpZero], inner, cur);
            lemma_bracket_sum_concat(seq![Token::JmpZero], inner);
            lemma_bracket_sum_one(Token::JmpZero);
            lemma_mdf_one(Token::JmpZero, cur);
            lemma_mdf_one(Token::JmpNoZero, cur + 1);
            assert(stmt_tokens(s) == seq![Token::JmpZero] + inner + seq![Token::JmpNoZero]);
        },
        _ => {
            lemma_mdf_one(stmt_tokens(s)[0], cur);
            assert(stmt_tokens(s) =~= seq![stmt_tokens(s)[0]]);
        },
    }
}

/// The bracket nesting depth of a statement list's tokens, measured from
/// any starting depth, exceeds it by exactly the list's loop depth.
proof fn lemma_stats_depth_tokens(ss: Seq<NodeStatement>, cur: int)
    ensures
        max_depth_from(stats_tokens(ss), cur) == cur + stats_depth(ss),
        stats_depth(ss) >= 0,
    decreases ss,
{
    if ss.len() > 0 {
        lemma_stmt_tokens_sum(ss[0].stat);
        lemma_stmt_depth_tokens(ss[0].stat, cur);
        lemma_stats_depth_tokens(ss.drop_first(), cur);
        lemma_mdf_concat(stmt_tokens(ss[0].stat), stats_tokens(ss.drop_first()), cur);
    }
}

/// A parsed tree's loop nesting depth equals the bracket nesting depth of
/// the token sequence it was parsed from.
pub proof fn lemma_depth_matches_brackets(b: NodeBlock)
    ensures
        max_depth_from(block_tokens(b), 0) == stats_depth(b.stats@),
{
    lemma_stats_depth_tokens(b.stats@, 0);
}


/// The first token of a statement's rendering, by statement form.
pub open spec fn stmt_head(s: Statement) -> Token {
    match s {
        Statement::MoveL(n) => Token::MoveL(n),
        Statement::MoveR(n) => Token::MoveR(n),
        Statement::Add(n) => Token::Inc(n),
        Statement::Sub(n) => Token::Dec(n),
        Statement::Read => Token::Read,
        Statement::Write => Token::Write,
        Statement::Loop(_) => Token::JmpZero,
    }
}

/// A statement's tokens start with its head token; every form but a loop is
/// exactly that one token.
pub proof fn lemma_stmt_head(s: Statement)
    ensures
        stmt_tokens(s).len() >= 1,
        stmt_tokens(s)[0] == stmt_head(s),
        !(s is Loop) ==> stmt_tokens(s) == seq![stmt_head(s)],
{
    match s {
        Statement::Loop(b) => {
            assert(stmt_tokens(s)[0] == (seq![Token::JmpZero] + stats_tokens(b.stats@))[0]);
        },
        _ => {},
    }
}

/// Parsing is a left inverse of rendering: one statement parse applied to a
/// statement's tokens, whatever follows them, consumes exactly those tokens.
pub proof fn lemma_stmt_roundtrip(s: Statement, r: Seq<Token>)
    ensures
        stmt_consumed(stmt_tokens(s) + r) == Ok::<int, Error>(stmt_tokens(s).len() as int),
    decreases s, 0int,
{
    let t = stmt_tokens(s) + r;
    lemma_stmt_head(s);
    assert(t[0] == stmt_head(s));
    match s {
        Statement::Loop(b) => {
            let inner = stats_tokens(b.stats@);
            assert(t.skip(1) =~= inner + (seq![Token::JmpNoZero] + r));
            lemma_stats_roundtrip(b.stats@, seq![Token::JmpNoZero] + r);
            assert((seq![Token::JmpNoZero] + r)[0] == Token::JmpNoZero);
            assert((seq![Token::JmpNoZero] + r).len() > 0);
            assert(stmt_consumed(seq![Token::JmpNoZero] + r) == Err::<int, Error>(
                Error::UnexpectedToken(Token::JmpNoZero),
            ));
            assert(block_consumed(seq![Token::JmpNoZero] + r) == 0);
            assert(t[1 + inner.len() as int] == (seq![Token::JmpNoZero] + r)[0]);
        },
        _ => {},
    }
}

/// Parsing is a left inverse of rendering: a block parse applied to a
/// statement list's tokens consumes all of them, then continues into
/// whatever follows exactly as it would on its own.
pub proof fn lemma_stats_roundtrip(ss: Seq<NodeStatement>, r: Seq<Token>)
    ensures
        block_consumed(stats_tokens(ss) + r) == stats_tokens(ss).len() + block_consumed(r),
    decreases ss, 1int,
{
    if ss.len() == 0 {
        assert(stats_tokens(ss) + r =~= r);
    } else {
        let h = stmt_tokens(ss[0].stat);
        let rest = stats_tokens(ss.drop_first());
        assert(stats_tokens(ss) + r =~= h + (rest + r));
        lemma_stmt_roundtrip(ss[0].stat, rest + r);
        lemma_stmt_head(ss[0].stat);
        lemma_stats_roundtrip(ss.drop_first(), r);
        assert((h + (rest + r)).skip(h.len() as int) =~= rest + r);
    }
}

/// Appending a statement to a list appends its tokens.
pub proof fn lemma_stats_tokens_push(ss: Seq<NodeStatement>, x: NodeStatement)
    ensures
        stats_tokens(ss.push(x)) == stats_tokens(ss) + stmt_tokens(x.stat),
    decreases ss,
{
    if ss.len() == 0 {
        let q = ss.push(x);
        assert(q[0] == x);
        assert(q.drop_first() =~= Seq::<NodeStatement>::empty());
        assert(stats_tokens(q) == stmt_tokens(q[0].stat) + stats_tokens(q.drop_first()));
        assert(stats_tokens(Seq::<NodeStatement>::empty()) == Seq::<Token>::empty());
        assert(stmt_tokens(x.stat) + Seq::<Token>::empty() =~= stmt_tokens(x.stat));
        assert(stats_tokens(ss) + stmt_tokens(x.stat) =~= stmt_tokens(x.stat));
    } else {
        assert(ss.push(x)[0] == ss[0]);
        assert(ss.push(x).drop_first() =~= ss.drop_first().push(x));
        lemma_stats_tokens_push(ss.drop_first(), x);
        assert(stats_tokens(ss.push(x)) == stmt_tokens(ss[0].stat) + (stats_tokens(ss.drop_first())
            + stmt_tokens(x.stat)));
        assert(stmt_tokens(ss[0].stat) + (stats_tokens(ss.drop_first()) + stmt_tokens(x.stat)) =~= (
        stmt_tokens(ss[0].stat) + stats_tokens(ss.drop_first())) + stmt_tokens(x.stat));
    }
}

/// Take the expected token off the front of the input, or say exactly why
/// that is impossible.
pub fn take_one_of<'a>(input: Tokens<'a>, of: Token) -> (r: ParserResult<Tokens<'a>, Token, Error>)
    ensures
        match r {
            Ok((rest, t)) => input@.len() > 0 && input@[0] == of && t == of && rest@
                == input@.skip(1),
            Err(ParserError::Recoverable(e)) => (input@.len() == 0 && e == Error::EndOfInput) || (
            input@.len() > 0 && input@[0] != of && e == Error::UnexpectedToken(input@[0])),
            Err(ParserError::Fatal(_)) => false,
        },
{
    if input.len() == 0 {
        return Err(ParserError::Recoverable(Error::EndOfInput));
    }
    let i = input[0];
    if i == of {
        let rest = &input[1..input.len()];
        assert(rest@ =~= input@.skip(1));
        Ok((rest, of))
    } else {
        Err(ParserError::Recoverable(Error::UnexpectedToken(i)))
    }
}

impl NodeStatement {
    /// Parse one statement off the front of the input, or fail with the
    /// error that classifies the mismatch. Never produces a fatal error.
    pub fn parse<'a>(input: Tokens<'a>) -> (r: ParserResult<Tokens<'a>, NodeStatement, Error>)
        ensures
            match r {
                Ok((rest, node)) => {
                    &&& stmt_consumed(input@) is Ok
                    &&& rest@ == input@.skip(stmt_consumed(input@)->Ok_0)
                    &&& stmt_tokens(node.stat) == input@.take(stmt_consumed(input@)->Ok_0)
                    &&& node.attr == (Attr {  })
                },
                Err(ParserError::Recoverable(e)) => stmt_consumed(input@) == Err::<int, Error>(e),
                Err(ParserError::Fatal(_)) => false,
            },
        decreases input@.len(), 0int,
    {
        if input.len() == 0 {
            return Err(ParserError::Recoverable(Error::EndOfInput));
        }
        let t = input[0];
        let rest = &input[1..input.len()];
        assert(rest@ =~= input@.skip(1));
        match t {
            Token::MoveL(count) => {
                assert(input@.take(1) =~= seq![input@[0]]);
                Ok((rest, NodeStatement { attr: Attr {  }, stat: Statement::MoveL(count) }))
            },
            Token::MoveR(count) => {
                assert(input@.take(1) =~= seq![input@[0]]);
                Ok((rest, NodeStatement { attr: Attr {  }, stat: Statement::MoveR(count) }))
            },
            Token::Read => {
                assert(input@.take(1) =~= seq![input@[0]]);
                Ok((rest, NodeStatement { attr: Attr {  }, stat: Statement::Read }))
            },
            Token::Write => {
                assert(input@.take(1) =~= seq![input@[0]]);
                Ok((rest, NodeStatement { attr: Attr {  }, stat: Statement::Write }))
            },
            Token::Inc(count) => {
                assert(input@.take(1) =~= seq![input@[0]]);
                Ok((rest, NodeStatement { attr: Attr {  }, stat: Statement::Add(count) }))
            },
            Token::Dec(count) => {
                assert(input@.take(1) =~= seq![input@[0]]);
                Ok((rest, NodeStatement { attr: Attr {  }, stat: Statement::Sub(count) }))
            },
            Token::JmpZero => {
                let ghost k = 1 + block_consumed(input@.skip(1));
                proof {
                    lemma_block_consumed_bounds(input@.skip(1));
                }
                match NodeBlock::parse(rest) {
                    Err(ParserError::Fatal(f)) => Err(ParserError::Fatal(f)),
                    Err(ParserError::Recoverable(f)) => Err(ParserError::Recoverable(f)),
                    Ok((rest2, block)) => {
                        proof {
                            assert(rest2@ =~= input@.skip(k));
                        }
                        match take_one_of(rest2, Token::JmpNoZero) {
                            Ok((rest3, _)) => {
                                proof {
                                    assert(input@.skip(k)[0] == input@[k]);
                                    assert(rest3@ =~= input@.skip(k + 1));
                                    assert(stats_tokens(block.stats@) == rest@.take(k - 1));
                                    assert(seq![Token::JmpZero] + rest@.take(k - 1) + seq![
                                        Token::JmpNoZero,
                                    ] =~= input@.take(k + 1));
                                }
                                Ok(
                                    (
                                        rest3,
                                        NodeStatement {
                                            attr: Attr {  },
                                            stat: Statement::Loop(Box::new(block)),
                                        },
                                    ),
                                )
                            },
                            Err(ParserError::Recoverable(e)) => {
                                proof {
                                    if rest2@.len() > 0 {
                                        assert(input@.skip(k)[0] == input@[k]);
                                    }
                                }
                                Err(ParserError::Recoverable(e))
                            },
                            Err(ParserError::Fatal(e)) => Err(ParserError::Fatal(e)),
                        }
                    },
                }
            },
            Token::JmpNoZero => Err(
                ParserError::Recoverable(Error::UnexpectedToken(Token::JmpNoZero)),
            ),
        }
    }
}

impl NodeBlock {
    /// Parse the longest statement sequence at the front of the input. Block
    /// parsing itself never fails: the first recoverable mismatch ends the
    /// block and is reported so that the caller can decide.
    pub fn parse<'a>(input: Tokens<'a>) -> (r: ParserResult<Tokens<'a>, NodeBlock, Error>)
        ensures
            match r {
                Ok((rest, node)) => {
                    &&& rest@ == input@.skip(block_consumed(input@))
                    &&& block_tokens(node) == input@.take(block_consumed(input@))
                    &&& stmt_consumed(rest@) is Err
                    &&& node.attr == (Attr {  })
                },
                Err(_) => false,
            },
        decreases input@.len(), 1int,
    {
        let mut rest: Tokens<'a> = input;
        let mut stats: Vec<NodeStatement> = Vec::new();
        proof {
            assert(input@.skip(0) =~= input@);
            assert(input@.take(0) =~= Seq::<Token>::empty());
        }
        loop
            invariant
                rest@.len() <= input@.len(),
                rest@ == input@.skip(input@.len() - rest@.len()),
                stats_tokens(stats@) == input@.take(input@.len() - rest@.len()),
                block_consumed(input@) == input@.len() - rest@.len() + block_consumed(rest@),
            ensures
                rest@ == input@.skip(block_consumed(input@)),
                stats_tokens(stats@) == input@.take(block_consumed(input@)),
                stmt_consumed(rest@) is Err,
            decreases rest@.len(),
        {
            let ghost j = input@.len() - rest@.len();
            match NodeStatement::parse(rest) {
                Err(ParserError::Recoverable(_)) => {
                    break ;
                },
                Err(ParserError::Fatal(f)) => {
                    // A fatal mismatch aborts at once, with no further
                    // alternatives. No statement alternative produces one
                    // today, so this path is unreachable.
                    return Err(ParserError::Fatal(f));
                },
                Ok((rest2, stat)) => {
                    proof {
                        let k = stmt_consumed(rest@)->Ok_0;
                        lemma_stmt_consumed_bounds(rest@);
                        lemma_stats_tokens_push(stats@, stat);
                        assert(rest2@ =~= input@.skip(j + k));
                        assert(input@.take(j) + rest@.take(k) =~= input@.take(j + k));
                    }
                    rest = rest2;
                    stats.push(stat);
                },
            }
        }
        Ok((rest, NodeBlock { attr: Attr {  }, stats }))
    }
}

/// Parse a whole token stream into a program. The outer block must consume
/// every token; if it stops early, the statement mismatch that stopped it is
/// the reported error: running out of input inside a loop is `EndOfInput`, a
/// stray closing bracket is `UnexpectedToken`.
pub fn parse(input: Tokens<'_>) -> (r: Result<Ast, Error>)
    ensures
        match r {
            Ok(ast) => {
                &&& block_consumed(input@) == input@.len()
                &&& block_tokens(ast) == input@
                &&& ast.attr == (Attr {  })
            },
            Err(e) => {
                &&& block_consumed(input@) < input@.len()
                &&& stmt_consumed(input@.skip(block_consumed(input@))) == Err::<int, Error>(e)
            },
        },
{
    proof {
        lemma_block_consumed_bounds(input@);
    }
    match NodeBlock::parse(input) {
        Err(ParserError::Fatal(e)) => Err(e),
        Err(ParserError::Recoverable(e)) => Err(e),
        Ok((rest, ast)) => {
            if rest.len() > 0 {
                match NodeStatement::parse(rest) {
                    Err(ParserError::Recoverable(e)) => Err(e),
                    Err(ParserError::Fatal(e)) => Err(e),
                    Ok(_) => Err(Error::EndOfInput),
                }
            } else {
                proof {
                    assert(input@.take(block_consumed(input@)) =~= input@);
                }
                Ok(ast)
            }
        },
    }
}


/// The text of the tree's debug view: `2 * depth` spaces of indentation.
pub open spec fn indent_spec(depth: nat) -> Seq<char> {
    Seq::new(2 * depth, |i: int| ' ')
}

/// The character for one decimal digit.
pub open spec fn digit_spec(d: nat) -> char {
    if d == 0 {
        '0'
    } else if d == 1 {
        '1'
    } else if d == 2 {
        '2'
    } else if d == 3 {
        '3'
    } else if d == 4 {
        '4'
    } else if d == 5 {
        '5'
    } else if d == 6 {
        '6'
    } else if d == 7 {
        '7'
    } else if d == 8 {
        '8'
    } else {
        '9'
    }
}

/// The decimal rendering of a number, most significant digit first.
pub open spec fn dec_spec(n: nat) -> Seq<char>
    decreases n,
{
    if n < 10 {
        seq![digit_spec(n)]
    } else {
        dec_spec(n / 10).push(digit_spec(n % 10))
    }
}

/// The debug view of one statement at the given indentation depth: its name
/// and count on a line of its own, with a loop's body printed below it.
pub open spec fn stmt_print_spec(s: Statement, depth: nat) -> Seq<char>
    decreases s,
{
    match s {
        Statement::MoveL(n) => indent_spec(depth) + seq!['M', 'o', 'v', 'e', 'L', '('] + dec_spec(
            n as nat,
        ) + seq![')', '\n'],
        Statement::MoveR(n) => indent_spec(depth) + seq!['M', 'o', 'v', 'e', 'R', '('] + dec_spec(
            n as nat,
        ) + seq![')', '\n'],
        Statement::Add(n) => indent_spec(depth) + seq!['A', 'd', 'd', '('] + dec_spec(n as nat)
            + seq![')', '\n'],
        Statement::Sub(n) => indent_spec(depth) + seq!['S', 'u', 'b', '('] + dec_spec(n as nat)
            + seq![')', '\n'],
        Statement::Read => indent_spec(depth) + seq!['R', 'e', 'a', 'd', '\n'],
        Statement::Write => indent_spec(depth) + seq!['W', 'r', 'i', 't', 'e', '\n'],
        Statement::Loop(b) => indent_spec(depth) + seq!['L', 'o', 'o', 'p', '\n']
            + block_print_spec(*b, depth + 1),
    }
}

/// The debug view of a statement list, in order.
pub open spec fn stats_print_spec(ss: Seq<NodeStatement>, depth: nat) -> Seq<char>
    decreases ss,
{
    if ss.len() == 0 {
        Seq::empty()
    } else {
        stmt_print_spec(ss[0].stat, depth) + stats_print_spec(ss.drop_first(), depth)
    }
}

/// The debug view of a block: a header line, then its statements one level
/// deeper.
pub open spec fn block_print_spec(b: NodeBlock, depth: nat) -> Seq<char>
    decreases b,
{
    indent_spec(depth) + seq!['B', 'l', 'o', 'c', 'k', '\n'] + stats_print_spec(
        b.stats@,
        depth + 1,
    )
}

fn indent_chars(depth: usize) -> (r: Vec<char>)
    ensures
        r@ == indent_spec(depth as nat),
{
    let mut v: Vec<char> = Vec::new();
    let mut i: usize = 0;
    while i < depth
        invariant
            i <= depth,
            v@ == Seq::new(2 * i as nat, |j: int| ' '),
        decreases depth - i,
    {
        v.push(' ');
        v.push(' ');
        i = i + 1;
        assert(v@ =~= Seq::new(2 * i as nat, |j: int| ' '));
    }
    v
}

fn dec_chars(n: usize) -> (r: Vec<char>)
    ensures
        r@ == dec_spec(n as nat),
    decreases n,
{
    let d = n % 10;
    let c = if d == 0 {
        '0'
    } else if d == 1 {
        '1'
    } else if d == 2 {
        '2'
    } else if d == 3 {
        '3'
    } else if d == 4 {
        '4'
    } else if d == 5 {
        '5'
    } else if d == 6 {
        '6'
    } else if d == 7 {
        '7'
    } else if d == 8 {
        '8'
    } else {
        '9'
    };
    assert(c == digit_spec(n as nat % 10));
    if n < 10 {
        let mut v: Vec<char> = Vec::new();
        v.push(c);
        assert(v@ =~= seq![digit_spec(n as nat)]);
        v
    } else {
        let mut v = dec_chars(n / 10);
        v.push(c);
        v
    }
}

/// How many indentation levels below its own line printing one statement
/// opens: only a loop opens any.
pub open spec fn stmt_print_levels(s: Statement) -> nat
    decreases s,
{
    match s {
        Statement::Loop(b) => 1 + stats_print_levels(b.stats@),
        _ => 0,
    }
}

/// How many indentation levels below the enclosing header printing a
/// statement list opens.
pub open spec fn stats_print_levels(ss: Seq<NodeStatement>) -> nat
    decreases ss,
{
    if ss.len() == 0 {
        0
    } else {
        let h = 1 + stmt_print_levels(ss[0].stat);
        let r = stats_print_levels(ss.drop_first());
        if h >= r {
            h
        } else {
            r
        }
    }
}

proof fn lemma_stats_print_levels_ge(ss: Seq<NodeStatement>, i: int)
    requires
        0 <= i < ss.len(),
    ensures
        1 + stmt_print_levels(ss[i].stat) <= stats_print_levels(ss),
    decreases i,
{
    if i > 0 {
        lemma_stats_print_levels_ge(ss.drop_first(), i - 1);
        assert(ss.drop_first()[i - 1] == ss[i]);
    }
}

/// Relies on String's FromIterator over chars: the collected string holds
/// exactly the characters of the vector, in order.
#[verifier::external_body]
fn chars_to_string(v: Vec<char>) -> (r: String)
    ensures
        r@ == v@,
{
    v.into_iter().collect()
}

impl NodeStatement {
    /// The debug view of this statement, as characters. The depth bound
    /// keeps every indentation level representable.
    pub fn print(&self, depth: usize) -> (r: Vec<char>)
        requires
            depth + stmt_print_levels(self.stat) <= usize::MAX,
        ensures
            r@ == stmt_print_spec(self.stat, depth as nat),
        decreases self, 0int, 0int,
    {
        let mut out = indent_chars(depth);
        match &self.stat {
            Statement::MoveL(n) => {
                out.push('M');
                out.push('o');
                out.push('v');
                out.push('e');
                out.push('L');
                out.push('(');
                let mut digits = dec_chars(*n);
                out.append(&mut digits);
                out.push(')');
                out.push('\n');
                assert(out@ =~= stmt_print_spec(self.stat, depth as nat));
            },
            Statement::MoveR(n) => {
                out.push('M');
                out.push('o');
                out.push('v');
                out.push('e');
                out.push('R');
                out.push('(');
                let mut digits = dec_chars(*n);
                out.append(&mut digits);
                out.push(')');
                out.push('\n');
                assert(out@ =~= stmt_print_spec(self.stat, depth as nat));
            },
            Statement::Add(n) => {
                out.push('A');
                out.push('d');
                out.push('d');
                out.push('(');
                let mut digits = dec_chars(*n);
                out.append(&mut digits);
                out.push(')');
                out.push('\n');
                assert(out@ =~= stmt_print_spec(self.stat, depth as nat));
            },
            Statement::Sub(n) => {
                out.push('S');
                out.push('u');
                out.push('b');
                out.push('(');
                let mut digits = dec_chars(*n);
                out.append(&mut digits);
                out.push(')');
                out.push('\n');
                assert(out@ =~= stmt_print_spec(self.stat, depth as nat));
            },
            Statement::Read => {
                out.push('R');
                out.push('e');
                out.push('a');
                out.push('d');
                out.push('\n');
                assert(out@ =~= stmt_print_spec(self.stat, depth as nat));
            },
            Statement::Write => {
                out.push('W');
                out.push('r');
                out.push('i');
                out.push('t');
                out.push('e');
                out.push('\n');
                assert(out@ =~= stmt_print_spec(self.stat, depth as nat));
            },
            Statement::Loop(b) => {
                out.push('L');
                out.push('o');
                out.push('o');
                out.push('p');
                out.push('\n');
                let mut body = b.print(depth + 1);
                out.append(&mut body);
                assert(out@ =~= stmt_print_spec(self.stat, depth as nat));
            },
        }
        out
    }
}

impl NodeBlock {
    /// The debug view of this block, as characters. The depth bound keeps
    /// every indentation level representable.
    pub fn print(&self, depth: usize) -> (r: Vec<char>)
        requires
            depth + stats_print_levels(self.stats@) <= usize::MAX,
        ensures
            r@ == block_print_spec(*self, depth as nat),
        decreases self, 0int, 1int,
    {
        let mut out = indent_chars(depth);
        out.push('B');
        out.push('l');
        out.push('o');
        out.push('c');
        out.push('k');
        out.push('\n');
        let ghost header = out@;
        let mut i: usize = 0;
        while i < self.stats.len()
            invariant
                i <= self.stats@.len(),
                depth + stats_print_levels(self.stats@) <= usize::MAX,
                out@ == header + stats_print_spec(self.stats@.take(i as int), depth as nat + 1),
            decreases self.stats@.len() - i,
        {
            proof {
                lemma_stats_print_levels_ge(self.stats@, i as int);
            }
            let mut one = self.stats[i].print(depth + 1);
            out.append(&mut one);
            i = i + 1;
            proof {
                lemma_stats_print_take(self.stats@, i as int, depth as nat + 1);
            }
        }
        proof {
            assert(self.stats@.take(self.stats@.len() as int) =~= self.stats@);
        }
        out
    }

    /// The whole tree's debug view as one string.
    pub fn to_text(&self) -> (r: String)
        requires
            stats_print_levels(self.stats@) <= usize::MAX,
        ensures
            r@ == block_print_spec(*self, 0),
    {
        chars_to_string(self.print(0))
    }
}

proof fn lemma_stats_print_take(ss: Seq<NodeStatement>, i: int, depth: nat)
    requires
        0 < i <= ss.len(),
    ensures
        stats_print_spec(ss.take(i), depth) == stats_print_spec(ss.take(i - 1), depth)
            + stmt_print_spec(ss[i - 1].stat, depth),
    decreases i,
{
    if i == 1 {
        assert(ss.take(1)[0] == ss[0]);
        assert(ss.take(1).drop_first() =~= Seq::<NodeStatement>::empty());
        assert(ss.take(0) =~= Seq::<NodeStatement>::empty());
        assert(stats_print_spec(ss.take(1), depth) == stmt_print_spec(ss[0].stat, depth)
            + stats_print_spec(Seq::<NodeStatement>::empty(), depth));
        assert(stmt_print_spec(ss[0].stat, depth) + Seq::<char>::empty() =~= stmt_print_spec(
            ss[0].stat,
            depth,
        ));
        assert(stats_print_spec(ss.take(0), depth) + stmt_print_spec(ss[0].stat, depth)
            =~= stmt_print_spec(ss[0].stat, depth));
    } else {
        lemma_stats_print_take(ss.drop_first(), i - 1, depth);
        assert(ss.take(i)[0] == ss[0]);
        assert(ss.take(i).drop_first() =~= ss.drop_first().take(i - 1));
        assert(ss.take(i - 1)[0] == ss[0]);
        assert(ss.take(i - 1).drop_first() =~= ss.drop_first().take(i - 2));
        assert(ss.drop_first()[i - 2] == ss[i - 1]);
        assert(stmt_print_spec(ss[0].stat, depth) + (stats_print_spec(
            ss.drop_first().take(i - 2),
            depth,
        ) + stmt_print_spec(ss[i - 1].stat, depth)) =~= (stmt_print_spec(ss[0].stat, depth)
            + stats_print_spec(ss.drop_first().take(i - 2), depth)) + stmt_print_spec(
            ss[i - 1].stat,
            depth,
        ));
    }
}

} // verus!
