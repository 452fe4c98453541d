use vstd::prelude::*;
use vstd::std_specs::iter::IteratorSpec;

verus! {

/// A lexical token of the source language. Runs of the four directional
/// characters are coalesced into one token carrying the run length; the
/// four remaining symbols each stand alone and carry no count.
#[derive(Clone, Copy, Debug, PartialEq, Eq, Structural)]
pub enum Token {
    MoveL(usize),
    MoveR(usize),
    Read,
    Write,
    Inc(usize),
    Dec(usize),
    JmpZero,
    JmpNoZero,
}

/// The eight characters that carry meaning; everything else is commentary.
pub open spec fn is_symbol(c: char) -> bool {
    c == '<' || c == '>' || c == '+' || c == '-' || c == '.' || c == ',' || c == '[' || c == ']'
}

/// The four characters that coalesce into count-bearing tokens.
pub open spec fn is_dir(c: char) -> bool {
    c == '<' || c == '>' || c == '+' || c == '-'
}

/// The token emitted for a run of `n` copies of the directional character `c`.
pub open spec fn dir_token(c: char, n: usize) -> Token {
    if c == '<' {
        Token::MoveL(n)
    } else if c == '>' {
        Token::MoveR(n)
    } else if c == '+' {
        Token::Inc(n)
    } else {
        Token::Dec(n)
    }
}

/// Length of the maximal run of the character `c` starting at position `i`.
pub open spec fn run_len(s: Seq<char>, i: int, c: char) -> nat
    decreases s.len() - i,
{
    if i < 0 || i >= s.len() || s[i] != c {
        0
    } else {
        1 + run_len(s, i + 1, c)
    }
}

/// The tokens produced by scanning `s` from position `i` to the end.
/// This is total: every sequence of characters lexes to some token sequence.
pub open spec fn lex_from(s: Seq<char>, i: int) -> Seq<Token>
    decreases s.len() - i,
    via lex_from_decreases
{
    if i < 0 || i >= s.len() {
        Seq::empty()
    } else {
        let c = s[i];
        if is_dir(c) {
            let n = run_len(s, i, c);
            seq![dir_token(c, n as usize)] + lex_from(s, i + n)
        } else if c == '.' {
            seq![Token::Write] + lex_from(s, i + 1)
        } else if c == ',' {
            seq![Token::Read] + lex_from(s, i + 1)
        } else if c == '[' {
            seq![Token::JmpZero] + lex_from(s, i + 1)
        } else if c == ']' {
            seq![Token::JmpNoZero] + lex_from(s, i + 1)
        } else {
            lex_from(s, i + 1)
        }
    }
}

/// A run starting inside the text never reaches past its end.
pub proof fn lemma_run_len_le(s: Seq<char>, i: int, c: char)
    requires
        0 <= i <= s.len(),
    ensures
        run_len(s, i, c) <= s.len() - i,
    decreases s.len() - i,
{
    if i < s.len() && s[i] == c {
        lemma_run_len_le(s, i + 1, c);
    }
}

#[via_fn]
proof fn lex_from_decreases(s: Seq<char>, i: int) {
    if 0 <= i < s.len() && is_dir(s[i]) {
        assert(run_len(s, i, s[i]) == 1 + run_len(s, i + 1, s[i]));
        lemma_run_len_le(s, i, s[i]);
    }
}

/// The full token sequence of a source text.
pub open spec fn lex_spec(s: Seq<char>) -> Seq<Token> {
    lex_from(s, 0)
}

/// The run length a token carries is at most `b`; tokens without a count
/// satisfy this trivially.
pub open spec fn token_count_le(t: Token, b: int) -> bool {
    match t {
        Token::MoveL(n) => n <= b,
        Token::MoveR(n) => n <= b,
        Token::Inc(n) => n <= b,
        Token::Dec(n) => n <= b,
        _ => true,
    }
}

/// Scanning emits at most one token per character, and every run length is
/// bounded by the text length.
pub proof fn lemma_lex_from_counts(s: Seq<char>, i: int)
    requires
        0 <= i <= s.len(),
        s.len() <= usize::MAX,
    ensures
        lex_from(s, i).len() <= s.len() - i,
        forall|j: int|
            0 <= j < lex_from(s, i).len() ==> token_count_le(
                #[trigger] lex_from(s, i)[j],
                s.len() as int,
            ),
    decreases s.len() - i,
{
    if i < s.len() {
        let c = s[i];
        if is_dir(c) {
            let n = run_len(s, i, c);
            assert(run_len(s, i, c) == 1 + run_len(s, i + 1, c));
            lemma_run_len_le(s, i, c);
            lemma_lex_from_counts(s, i + n);
            assert(lex_from(s, i)[0] == dir_token(c, n as usize));
            assert(n as usize == n);
        } else {
            lemma_lex_from_counts(s, i + 1);
        }
    }
}


/// A run of identical characters has exactly its length as run length.
proof fn lemma_run_len_all(s: Seq<char>, i: int, c: char)
    requires
        0 <= i <= s.len(),
        forall|j: int| i <= j < s.len() ==> s[j] == c,
    ensures
        run_len(s, i, c) == s.len() - i,
    decreases s.len() - i,
{
    if i < s.len() {
        lemma_run_len_all(s, i + 1, c);
    }
}

/// Run-length coalescing: a text that is one run of `k` identical
/// directional characters lexes to exactly one token carrying count `k`.
pub proof fn lemma_run_coalesce(c: char, k: usize)
    requires
        is_dir(c),
        k >= 1,
    ensures
        lex_spec(Seq::new(k as nat, |i: int| c)) == seq![dir_token(c, k)],
{
    let s = Seq::new(k as nat, |i: int| c);
    lemma_run_len_all(s, 0, c);
    assert(lex_from(s, 0) == seq![dir_token(c, k)] + lex_from(s, k as int));
    assert(seq![dir_token(c, k)] + lex_from(s, k as int) =~= seq![dir_token(c, k)]);
}

/// Scanning depends only on the text from the scan position on.
proof fn lemma_run_len_skip(s: Seq<char>, k: int, i: int, c: char)
    requires
        0 <= k <= i <= s.len(),
    ensures
        run_len(s, i, c) == run_len(s.skip(k), i - k, c),
    decreases s.len() - i,
{
    if i < s.len() && s[i] == c {
        lemma_run_len_skip(s, k, i + 1, c);
    }
}

/// Scanning from position `i` sees exactly the tokens of the text with its
/// first `k` characters removed, scanned from `i - k`.
pub proof fn lemma_lex_from_skip(s: Seq<char>, k: int, i: int)
    requires
        0 <= k <= i <= s.len(),
    ensures
        lex_from(s, i) == lex_from(s.skip(k), i - k),
    decreases s.len() - i,
{
    if i < s.len() {
        let c = s[i];
        assert(s.skip(k)[i - k] == s[i]);
        if is_dir(c) {
            assert(run_len(s, i, c) == 1 + run_len(s, i + 1, c));
            lemma_run_len_le(s, i, c);
            lemma_run_len_skip(s, k, i, c);
            lemma_lex_from_skip(s, k, i + run_len(s, i, c));
        } else {
            lemma_lex_from_skip(s, k, i + 1);
        }
    }
}

/// A run in the left part of a commentary-separated text never crosses
/// the separating character.
proof fn lemma_run_len_sep(u: Seq<char>, v: Seq<char>, c: char, i: int, d: char)
    requires
        !is_symbol(c),
        is_dir(d),
        0 <= i <= u.len(),
    ensures
        run_len(u + seq![c] + v, i, d) == run_len(u, i, d),
    decreases u.len() - i,
{
    let w = u + seq![c] + v;
    if i < u.len() {
        assert(w[i] == u[i]);
        if u[i] == d {
            lemma_run_len_sep(u, v, c, i + 1, d);
        }
    } else {
        assert(w[i] == c);
        assert(w[i] != d);
    }
}

proof fn lemma_commentary_split(u: Seq<char>, v: Seq<char>, c: char, i: int)
    requires
        !is_symbol(c),
        0 <= i <= u.len(),
    ensures
        lex_from(u + seq![c] + v, i) == lex_from(u, i) + lex_from(v, 0),
    decreases u.len() - i,
{
    let w = u + seq![c] + v;
    if i == u.len() {
        assert(w[i] == c);
        assert(lex_from(w, i) == lex_from(w, i + 1));
        lemma_lex_from_skip(w, i + 1, i + 1);
        assert(w.skip(i + 1) =~= v);
        assert(lex_from(u, i) + lex_from(v, 0) =~= lex_from(v, 0));
    } else {
        let d = u[i];
        assert(w[i] == u[i]);
        if is_dir(d) {
            lemma_run_len_sep(u, v, c, i, d);
            assert(run_len(u, i, d) == 1 + run_len(u, i + 1, d));
            lemma_run_len_le(u, i, d);
            let n = run_len(u, i, d);
            lemma_commentary_split(u, v, c, i + n);
            assert(seq![dir_token(d, n as usize)] + (lex_from(u, i + n) + lex_from(v, 0)) =~= (
            seq![dir_token(d, n as usize)] + lex_from(u, i + n)) + lex_from(v, 0));
        } else if is_symbol(d) {
            lemma_commentary_split(u, v, c, i + 1);
            assert(lex_from(w, i).drop_first() == lex_from(w, i + 1));
            assert(lex_from(w, i)[0] == lex_from(u, i)[0]);
            assert(lex_from(w, i) =~= lex_from(u, i) + lex_from(v, 0));
        } else {
            lemma_commentary_split(u, v, c, i + 1);
        }
    }
}

/// Ignored characters: a character outside the eight-symbol set is dropped
/// with no emitted token, and the texts on either side of it lex exactly as
/// they do on their own.
pub proof fn lemma_ignored_char(u: Seq<char>, v: Seq<char>, c: char)
    requires
        !is_symbol(c),
    ensures
        lex_spec(u + seq![c] + v) == lex_spec(u) + lex_spec(v),
{
    lemma_commentary_split(u, v, c, 0);
}

/// Scanner position inside a fully buffered source text.
pub struct LexerState {
    pub chars: Vec<char>,
    pub pos: usize,
}

fn symbol_char(c: char) -> (b: bool)
    ensures
        b == is_symbol(c),
{
    c == '<' || c == '>' || c == '+' || c == '-' || c == '.' || c == ',' || c == '[' || c == ']'
}

/// Produce the next token, skipping commentary characters, or report that
/// the input is exhausted. Consumes the maximal run of a directional
/// character in one step, and nothing past it: on success the scan stops
/// directly after a command character, which together with the remaining
/// token stream fixes the new position exactly.
pub fn next(state: &mut LexerState) -> (r: Option<Token>)
    requires
        old(state).pos <= old(state).chars@.len(),
    ensures
        final(state).chars@ == old(state).chars@,
        old(state).pos <= final(state).pos <= final(state).chars@.len(),
        match r {
            Some(t) => lex_from(final(state).chars@, old(state).pos as int) == seq![t] + lex_from(
                final(state).chars@,
                final(state).pos as int,
            ) && old(state).pos < final(state).pos && is_symbol(
                final(state).chars@[final(state).pos - 1],
            ),
            None => final(state).pos == final(state).chars@.len() && lex_from(
                final(state).chars@,
                old(state).pos as int,
            ) == Seq::<Token>::empty(),
        },
{
    let ghost s = old(state).chars@;
    let ghost p0 = old(state).pos;
    let mut pos: usize = state.pos;
    let n: usize = state.chars.len();
    let mut exhausted: bool = false;
    loop
        invariant_except_break
            !exhausted,
        invariant
            s == state.chars@,
            n == s.len(),
            p0 <= pos <= s.len(),
            lex_from(s, p0 as int) == lex_from(s, pos as int),
        ensures
            s == state.chars@,
            n == s.len(),
            p0 <= pos <= s.len(),
            lex_from(s, p0 as int) == lex_from(s, pos as int),
            exhausted ==> pos == s.len(),
            !exhausted ==> pos < s.len() && is_symbol(s[pos as int]),
        decreases s.len() - pos,
    {
        if pos == n {
            exhausted = true;
            break ;
        }
        let c = state.chars[pos];
        if symbol_char(c) {
            break ;
        }
        assert(lex_from(s, pos as int) == lex_from(s, pos + 1));
        pos = pos + 1;
    }
    if exhausted {
        state.pos = pos;
        return None;
    }
    let c = state.chars[pos];
    if c == '.' || c == ',' || c == '[' || c == ']' {
        let t = if c == '.' {
            Token::Write
        } else if c == ',' {
            Token::Read
        } else if c == '[' {
            Token::JmpZero
        } else {
            Token::JmpNoZero
        };
        assert(lex_from(s, pos as int) == seq![t] + lex_from(s, pos + 1));
        assert(is_symbol(s[pos as int]));
        state.pos = pos + 1;
        Some(t)
    } else {
        let start: usize = pos;
        loop
            invariant
                s == state.chars@,
                n == s.len(),
                is_dir(c),
                start < s.len(),
                start <= pos <= s.len(),
                s[start as int] == c,
                start < pos ==> s[pos - 1] == c,
                run_len(s, start as int, c) == (pos - start) + run_len(s, pos as int, c),
            ensures
                s == state.chars@,
                start <= pos <= s.len(),
                start < pos ==> s[pos - 1] == c,
                run_len(s, start as int, c) == pos - start,
            decreases s.len() - pos,
        {
            if pos == n {
                break ;
            }
            if state.chars[pos] != c {
                break ;
            }
            assert(run_len(s, pos as int, c) == 1 + run_len(s, pos + 1, c));
            pos = pos + 1;
        }
        proof {
            assert(run_len(s, pos as int, c) == 0);
            assert(run_len(s, start as int, c) == pos - start);
            assert(lex_from(s, start as int) == seq![
                dir_token(c, run_len(s, start as int, c) as usize),
            ] + lex_from(s, start + run_len(s, start as int, c)));
        }
        proof {
            assert(run_len(s, start as int, c) >= 1);
            assert(s[pos - 1] == c);
            assert(is_symbol(s[pos - 1]));
        }
        let count: usize = pos - start;
        let t = if c == '<' {
            Token::MoveL(count)
        } else if c == '>' {
            Token::MoveR(count)
        } else if c == '+' {
            Token::Inc(count)
        } else {
            Token::Dec(count)
        };
        state.pos = pos;
        Some(t)
    }
}

fn chars_vec(input: &str) -> (r: Vec<char>)
    ensures
        r@ == input@,
{
    let mut it = input.chars();
    let mut v: Vec<char> = Vec::new();
    loop
        invariant
            it.obeys_prophetic_iter_laws(),
            v@ + it.remaining() == input@,
        ensures
            v@ == input@,
        decreases input@.len() - v@.len(),
    {
        match it.next() {
            Some(c) => {
                v.push(c);
            },
            None => {
                break ;
            },
        }
    }
    v
}

/// Scan a whole source text into its token sequence. Lexing is total:
/// there is no precondition and no failure case.
pub fn lex(input: String) -> (r: Vec<Token>)
    ensures
        r@ == lex_spec(input@),
        input@.len() <= usize::MAX,
{
    let chars = chars_vec(input.as_str());
    proof {
        assert(chars.len() == chars@.len());
    }
    let mut state = LexerState { chars, pos: 0 };
    let ghost s = state.chars@;
    let mut tokens: Vec<Token> = Vec::new();
    loop
        invariant
            s == state.chars@,
            s == input@,
            state.pos <= s.len(),
            tokens@ + lex_from(s, state.pos as int) == lex_from(s, 0),
        ensures
            tokens@ == lex_from(s, 0),
        decreases s.len() - state.pos,
    {
        let ghost prev = tokens@;
        match next(&mut state) {
            Some(t) => {
                tokens.push(t);
                proof {
                    assert(tokens@ + lex_from(s, state.pos as int) =~= prev + (seq![t] + lex_from(
                        s,
                        state.pos as int,
                    )));
                }
            },
            None => {
                proof {
                    assert(tokens@ =~= tokens@ + lex_from(s, state.pos as int));
                }
                break ;
            },
        }
    }
    tokens
}

} // verus!
