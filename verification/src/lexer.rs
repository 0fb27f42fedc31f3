use vstd::prelude::*;

use crate::fs::BashError;
use crate::parser::{parse_err, parse_error, PartV, Word, WordPart, WordPartKind};
use crate::text::{decimal, is_whitespace, is_ws, push_char, push_decimal, string_from_chars};

verus! {

// ─── Tokens ─────────────────────────────────────────────────────────────────

#[derive(Debug)]
pub enum Token {
    Word(Word),
    Pipe,
    AndIf,
    OrIf,
    RedirectRead,
    RedirectWrite,
    RedirectAppend,
    Separator,
}

pub enum TokenV {
    Word(Seq<PartV>),
    Pipe,
    AndIf,
    OrIf,
    RedirectRead,
    RedirectWrite,
    RedirectAppend,
    Separator,
}

impl View for Token {
    type V = TokenV;

    open spec fn view(&self) -> TokenV {
        match self {
            Token::Word(w) => TokenV::Word(w@),
            Token::Pipe => TokenV::Pipe,
            Token::AndIf => TokenV::AndIf,
            Token::OrIf => TokenV::OrIf,
            Token::RedirectRead => TokenV::RedirectRead,
            Token::RedirectWrite => TokenV::RedirectWrite,
            Token::RedirectAppend => TokenV::RedirectAppend,
            Token::Separator => TokenV::Separator,
        }
    }
}

pub open spec fn tokens_view(t: Seq<Token>) -> Seq<TokenV> {
    t.map_values(|x: Token| x@)
}

#[derive(Debug, Clone, Copy, PartialEq, Eq, Structural)]
pub enum Quote {
    Single,
    Double,
}

// ─── The lexer as a function of its input ───────────────────────────────────

/// The lexer's state between characters.
pub struct LexState {
    pub toks: Seq<TokenV>,
    pub cur: Seq<PartV>,
    pub started: bool,
    pub quote: Option<Quote>,
}

pub open spec fn initial_lex_state() -> LexState {
    LexState { toks: Seq::empty(), cur: Seq::empty(), started: false, quote: None }
}

/// Adds character `c` of kind `kind` to the word: it joins the last part when
/// that has the same kind (command substitutions never join).
pub open spec fn push_part_spec(cur: Seq<PartV>, c: char, kind: WordPartKind) -> Seq<PartV> {
    if kind != WordPartKind::CommandSub && cur.len() > 0 && cur.last().kind == kind {
        cur.update(cur.len() - 1, PartV { text: cur.last().text.push(c), kind: kind })
    } else {
        cur.push(PartV { text: seq![c], kind: kind })
    }
}

pub open spec fn add_char(st: LexState, c: char, kind: WordPartKind) -> LexState {
    LexState { cur: push_part_spec(st.cur, c, kind), started: true, ..st }
}

/// Ends the current word, if one was started.
pub open spec fn flush(st: LexState) -> LexState {
    if st.started || st.cur.len() > 0 {
        LexState { toks: st.toks.push(TokenV::Word(st.cur)), cur: Seq::empty(), started: false, ..st }
    } else {
        st
    }
}

pub open spec fn push_tok(st: LexState, t: TokenV) -> LexState {
    LexState { toks: st.toks.push(t), ..st }
}

/// The index of the first `c` at or after `j`, or the length of `s`.
pub open spec fn find_from(s: Seq<char>, j: int, c: char) -> int
    decreases s.len() - j,
{
    if j < 0 || j >= s.len() {
        s.len() as int
    } else if s[j] == c {
        j
    } else {
        find_from(s, j + 1, c)
    }
}

pub open spec fn nesting_msg(max: usize) -> Seq<char> {
    "command substitution nesting exceeds limit ("@ + decimal(max as nat) + ")"@
}

/// The body of a command substitution from index `i` on: `out` is the text so far,
/// `depth` the open parentheses. The result is the body and the index after its `)`.
pub open spec fn cmdsub_from(
    s: Seq<char>,
    i: int,
    out: Seq<char>,
    depth: int,
    parens: int,
    quote: Option<Quote>,
    max: usize,
) -> Result<(Seq<char>, int), Seq<char>>
    decreases s.len() - i,
{
    if i < 0 || i >= s.len() {
        Err("unexpected EOF while looking for matching `)`"@)
    } else {
        let ch = s[i];
        match quote {
            Some(Quote::Single) => if ch == '\'' {
                cmdsub_from(s, i + 1, out.push(ch), depth, parens, None, max)
            } else {
                cmdsub_from(s, i + 1, out.push(ch), depth, parens, quote, max)
            },
            Some(Quote::Double) => if ch == '"' {
                cmdsub_from(s, i + 1, out.push(ch), depth, parens, None, max)
            } else if ch == '\\' && i + 1 < s.len() {
                cmdsub_from(s, i + 2, out.push(ch).push(s[i + 1]), depth, parens, quote, max)
            } else {
                cmdsub_from(s, i + 1, out.push(ch), depth, parens, quote, max)
            },
            None => if ch == '\'' {
                cmdsub_from(s, i + 1, out.push(ch), depth, parens, Some(Quote::Single), max)
            } else if ch == '"' {
                cmdsub_from(s, i + 1, out.push(ch), depth, parens, Some(Quote::Double), max)
            } else if ch == '\\' {
                if i + 1 < s.len() {
                    cmdsub_from(s, i + 2, out.push(ch).push(s[i + 1]), depth, parens, quote, max)
                } else {
                    cmdsub_from(s, i + 1, out.push(ch), depth, parens, quote, max)
                }
            } else if ch == '$' {
                if i + 1 < s.len() && s[i + 1] == '(' {
                    if depth + 1 > max {
                        Err(nesting_msg(max))
                    } else {
                        cmdsub_from(s, i + 2, out.push('$').push('('), depth + 1, parens, quote, max)
                    }
                } else {
                    cmdsub_from(s, i + 1, out.push(ch), depth, parens, quote, max)
                }
            } else if ch == '(' {
                cmdsub_from(s, i + 1, out.push(ch), depth, parens + 1, quote, max)
            } else if ch == ')' {
                if parens > 0 {
                    cmdsub_from(s, i + 1, out.push(ch), depth, parens - 1, quote, max)
                } else if depth - 1 == 0 {
                    Ok((out, i + 1))
                } else {
                    cmdsub_from(s, i + 1, out.push(ch), depth - 1, parens, quote, max)
                }
            } else {
                cmdsub_from(s, i + 1, out.push(ch), depth, parens, quote, max)
            },
        }
    }
}

// ─── Laws of quoting ────────────────────────────────────────────────────────

/// A character that an unquoted word can hold as it is.
pub open spec fn plain_word_char(c: char) -> bool {
    &&& !is_ws(c)
    &&& c != '\'' && c != '"' && c != '\\' && c != '$' && c != '#'
    &&& c != ';' && c != '|' && c != '&' && c != '<' && c != '>'
}

/// A character that stands for itself between double quotes.
pub open spec fn dquoted_char(c: char) -> bool {
    c != '"' && c != '\\' && c != '$'
}

/// The parts of a word made of the plain text `t`.
pub open spec fn text_part(t: Seq<char>) -> Seq<PartV> {
    if t.len() == 0 {
        Seq::empty()
    } else {
        seq![PartV { text: t, kind: WordPartKind::Variable }]
    }
}

/// Between double quotes, every character but `"`, `\` and `$` (whitespace,
/// `;`, `|`, `#` and the rest among them) joins the current word.
pub proof fn law_quoted_chars_join_word(s: Seq<char>, i: int, st: LexState, max: usize)
    requires
        0 <= i < s.len(),
        st.quote == Some(Quote::Double),
        dquoted_char(s[i]),
    ensures
        lex_step(s, i, st, max) == Ok::<(int, LexState), Seq<char>>((i + 1, add_char(st, s[i], WordPartKind::Variable))),
{
}

proof fn lemma_lex_run(s: Seq<char>, i: int, e: int, st: LexState, x: Seq<char>, max: usize)
    requires
        0 <= i <= e <= s.len(),
        st.cur == text_part(x),
        st.quote is None || st.quote == Some(Quote::Double),
        forall|j: int|
            i <= j < e ==> (st.quote is None && plain_word_char(#[trigger] s[j])) || (st.quote == Some(Quote::Double)
                && dquoted_char(s[j])),
    ensures
        lex_from(s, i, st, max) == lex_from(
            s,
            e,
            LexState { cur: text_part(x + s.subrange(i, e)), started: st.started || i < e, ..st },
            max,
        ),
    decreases e - i,
{
    if i < e {
        let c = s[i];
        let st1 = add_char(st, c, WordPartKind::Variable);
        assert(lex_step(s, i, st, max) == Ok::<(int, LexState), Seq<char>>((i + 1, st1)));
        if x.len() == 0 {
            assert(seq![c] =~= x.push(c));
        } else {
            assert(st.cur.last() == PartV { text: x, kind: WordPartKind::Variable });
        }
        assert(st1.cur =~= text_part(x.push(c)));
        lemma_lex_run(s, i + 1, e, st1, x.push(c), max);
        assert(x.push(c) + s.subrange(i + 1, e) =~= x + s.subrange(i, e));
    } else {
        assert(x + s.subrange(i, e) =~= x);
    }
}

/// A double-quoted text is one word whatever it holds besides `"`, `\` and
/// `$`: after a plain word `w`, a space and `"t"` lex to exactly two words, `w`
/// and `t`, with `t`'s blanks and operators kept in it.
pub proof fn law_double_quotes_keep_one_word(w: Seq<char>, t: Seq<char>, max: usize)
    requires
        w.len() > 0,
        forall|j: int| 0 <= j < w.len() ==> plain_word_char(#[trigger] w[j]),
        forall|j: int| 0 <= j < t.len() ==> dquoted_char(#[trigger] t[j]),
    ensures
        lex_spec(w + seq![' ', '"'] + t + seq!['"'], max) == Ok::<Seq<TokenV>, Seq<char>>(
            seq![TokenV::Word(text_part(w)), TokenV::Word(text_part(t))],
        ),
{
    let s = w + seq![' ', '"'] + t + seq!['"'];
    let a = w.len() as int;
    let b = a + 2 + t.len();
    assert(s.len() == b + 1);
    assert forall|j: int| 0 <= j < a implies plain_word_char(#[trigger] s[j]) by {
        assert(s[j] == w[j]);
    }
    let st0 = initial_lex_state();
    assert(st0.cur =~= text_part(Seq::<char>::empty()));
    lemma_lex_run(s, 0, a, st0, Seq::empty(), max);
    assert(Seq::<char>::empty() + s.subrange(0, a) =~= w);
    let st1 = LexState { cur: text_part(w), started: true, ..st0 };
    assert(lex_from(s, 0, st0, max) == lex_from(s, a, st1, max));
    assert(s[a] == ' ');
    assert(is_ws(' '));
    let st2 = flush(st1);
    assert(lex_step(s, a, st1, max) == Ok::<(int, LexState), Seq<char>>((a + 1, st2)));
    assert(lex_from(s, a, st1, max) == lex_from(s, a + 1, st2, max));
    assert(s[a + 1] == '"');
    let st3 = LexState { started: true, quote: Some(Quote::Double), ..st2 };
    assert(lex_step(s, a + 1, st2, max) == Ok::<(int, LexState), Seq<char>>((a + 2, st3)));
    assert(lex_from(s, a + 1, st2, max) == lex_from(s, a + 2, st3, max));
    assert forall|j: int| a + 2 <= j < b implies dquoted_char(#[trigger] s[j]) by {
        assert(s[j] == t[j - a - 2]);
    }
    assert(st3.cur =~= text_part(Seq::<char>::empty()));
    lemma_lex_run(s, a + 2, b, st3, Seq::empty(), max);
    assert(Seq::<char>::empty() + s.subrange(a + 2, b) =~= t);
    let st4 = LexState { cur: text_part(t), started: true, ..st3 };
    assert(lex_from(s, a + 2, st3, max) == lex_from(s, b, st4, max));
    assert(s[b] == '"');
    let st5 = LexState { quote: None, ..st4 };
    assert(lex_step(s, b, st4, max) == Ok::<(int, LexState), Seq<char>>((b + 1, st5)));
    assert(lex_from(s, b, st4, max) == lex_from(s, b + 1, st5, max));
    assert(lex_from(s, b + 1, st5, max) == Ok::<Seq<TokenV>, Seq<char>>(flush(st5).toks));
    assert(flush(st5).toks =~= seq![TokenV::Word(text_part(w)), TokenV::Word(text_part(t))]);
}

/// Where the scan of a substitution body succeeds under one nesting limit, it
/// gives the same under any larger limit.
pub proof fn lemma_cmdsub_mono(
    s: Seq<char>,
    i: int,
    out: Seq<char>,
    depth: int,
    parens: int,
    quote: Option<Quote>,
    m1: usize,
    m2: usize,
)
    requires
        m1 <= m2,
    ensures
        cmdsub_from(s, i, out, depth, parens, quote, m1) is Ok ==> cmdsub_from(s, i, out, depth, parens, quote, m2)
            == cmdsub_from(s, i, out, depth, parens, quote, m1),
    decreases s.len() - i,
{
    if 0 <= i < s.len() {
        let ch = s[i];
        lemma_cmdsub_mono(s, i + 1, out.push(ch), depth, parens, None, m1, m2);
        lemma_cmdsub_mono(s, i + 1, out.push(ch), depth, parens, quote, m1, m2);
        lemma_cmdsub_mono(s, i + 1, out.push(ch), depth, parens, Some(Quote::Single), m1, m2);
        lemma_cmdsub_mono(s, i + 1, out.push(ch), depth, parens, Some(Quote::Double), m1, m2);
        lemma_cmdsub_mono(s, i + 1, out.push(ch), depth, parens + 1, quote, m1, m2);
        lemma_cmdsub_mono(s, i + 1, out.push(ch), depth, parens - 1, quote, m1, m2);
        lemma_cmdsub_mono(s, i + 1, out.push(ch), depth - 1, parens, quote, m1, m2);
        if i + 1 < s.len() {
            lemma_cmdsub_mono(s, i + 2, out.push(ch).push(s[i + 1]), depth, parens, quote, m1, m2);
            lemma_cmdsub_mono(s, i + 2, out.push('$').push('('), depth + 1, parens, quote, m1, m2);
        }
    }
}

/// Where lexing succeeds under one nesting limit, it gives the same tokens
/// under any larger limit.
pub proof fn lemma_lex_mono(s: Seq<char>, i: int, st: LexState, m1: usize, m2: usize)
    requires
        m1 <= m2,
    ensures
        lex_from(s, i, st, m1) is Ok ==> lex_from(s, i, st, m2) == lex_from(s, i, st, m1),
    decreases s.len() - i,
{
    if 0 <= i < s.len() {
        lemma_cmdsub_mono(s, i + 2, Seq::empty(), 1, 0, None, m1, m2);
        match lex_step(s, i, st, m1) {
            Err(_) => {},
            Ok((j, st2)) => {
                assert(lex_step(s, i, st, m2) == lex_step(s, i, st, m1));
                if i < j <= s.len() {
                    lemma_lex_mono(s, j, st2, m1, m2);
                }
            },
        }
    }
}

/// The body of an arithmetic expansion from index `i` on, ended by an unnested `))`.
pub open spec fn arith_from(s: Seq<char>, i: int, out: Seq<char>, depth: int, quote: Option<Quote>) -> Result<
    (Seq<char>, int),
    Seq<char>,
>
    decreases s.len() - i,
{
    if i < 0 || i >= s.len() {
        Err("unexpected EOF while looking for matching '))'"@)
    } else {
        let ch = s[i];
        match quote {
            Some(Quote::Single) => if ch == '\'' {
                arith_from(s, i + 1, out.push(ch), depth, None)
            } else {
                arith_from(s, i + 1, out.push(ch), depth, quote)
            },
            Some(Quote::Double) => if ch == '"' {
                arith_from(s, i + 1, out.push(ch), depth, None)
            } else {
                arith_from(s, i + 1, out.push(ch), depth, quote)
            },
            None => if ch == '\'' {
                arith_from(s, i + 1, out.push(ch), depth, Some(Quote::Single))
            } else if ch == '"' {
                arith_from(s, i + 1, out.push(ch), depth, Some(Quote::Double))
            } else if ch == '\\' {
                if i + 1 < s.len() {
                    arith_from(s, i + 2, out.push(ch).push(s[i + 1]), depth, quote)
                } else {
                    arith_from(s, i + 1, out.push(ch), depth, quote)
                }
            } else if ch == '(' {
                arith_from(s, i + 1, out.push(ch), depth + 1, quote)
            } else if ch == ')' {
                if depth > 0 {
                    arith_from(s, i + 1, out.push(ch), depth - 1, quote)
                } else if i + 1 < s.len() && s[i + 1] == ')' {
                    Ok((out, i + 2))
                } else {
                    arith_from(s, i + 1, out.push(ch), depth, quote)
                }
            } else {
                arith_from(s, i + 1, out.push(ch), depth, quote)
            },
        }
    }
}

/// What the lexer does with the character at `i`: the index of the next
/// character to read and the new state.
pub open spec fn lex_step(s: Seq<char>, i: int, st: LexState, max: usize) -> Result<
    (int, LexState),
    Seq<char>,
> {
    let ch = s[i];
    let q = st.quote;
    if q is None && ch == '#' && !st.started {
        let k = find_from(s, i + 1, '\n');
        if k < s.len() {
            Ok((k + 1, push_tok(st, TokenV::Separator)))
        } else {
            Ok((k, st))
        }
    } else if q is None && ch == '\'' {
        Ok((i + 1, LexState { started: true, quote: Some(Quote::Single), ..st }))
    } else if q is None && ch == '"' {
        Ok((i + 1, LexState { started: true, quote: Some(Quote::Double), ..st }))
    } else if (q == Some(Quote::Single) && ch == '\'') || (q == Some(Quote::Double) && ch == '"') {
        Ok((i + 1, LexState { quote: None, ..st }))
    } else if q is None && is_ws(ch) && ch != '\n' {
        Ok((i + 1, flush(st)))
    } else if q is None && (ch == '\n' || ch == ';') {
        Ok((i + 1, push_tok(flush(st), TokenV::Separator)))
    } else if q is None && ch == '|' {
        if i + 1 < s.len() && s[i + 1] == '|' {
            Ok((i + 2, push_tok(flush(st), TokenV::OrIf)))
        } else {
            Ok((i + 1, push_tok(flush(st), TokenV::Pipe)))
        }
    } else if q is None && ch == '&' {
        if i + 1 < s.len() && s[i + 1] == '&' {
            Ok((i + 2, push_tok(flush(st), TokenV::AndIf)))
        } else {
            Err("syntax error near unexpected token `&'"@)
        }
    } else if q is None && ch == '<' {
        Ok((i + 1, push_tok(flush(st), TokenV::RedirectRead)))
    } else if q is None && ch == '>' {
        if i + 1 < s.len() && s[i + 1] == '>' {
            Ok((i + 2, push_tok(flush(st), TokenV::RedirectAppend)))
        } else {
            Ok((i + 1, push_tok(flush(st), TokenV::RedirectWrite)))
        }
    } else if q == Some(Quote::Single) {
        Ok((i + 1, add_char(st, ch, WordPartKind::Literal)))
    } else if ch == '$' {
        if i + 1 < s.len() && s[i + 1] == '(' {
            let body = if i + 2 < s.len() && s[i + 2] == '(' {
                arith_from(s, i + 3, Seq::empty(), 0, None)
            } else {
                cmdsub_from(s, i + 2, Seq::empty(), 1, 0, None, max)
            };
            match body {
                Err(e) => Err(e),
                Ok((inner, j)) => Ok(
                    (
                        j,
                        LexState {
                            cur: st.cur.push(PartV { text: inner, kind: WordPartKind::CommandSub }),
                            started: true,
                            ..st
                        },
                    ),
                ),
            }
        } else {
            Ok((i + 1, add_char(st, '$', WordPartKind::Variable)))
        }
    } else if ch == '\\' {
        if i + 1 < s.len() {
            Ok((i + 2, add_char(st, s[i + 1], WordPartKind::Variable)))
        } else {
            Ok((i + 1, st))
        }
    } else {
        Ok((i + 1, add_char(st, ch, WordPartKind::Variable)))
    }
}

/// The tokens of `s[i..]`, starting in state `st`.
pub open spec fn lex_from(s: Seq<char>, i: int, st: LexState, max: usize) -> Result<
    Seq<TokenV>,
    Seq<char>,
>
    decreases s.len() - i,
{
    if i < 0 || i >= s.len() {
        if st.quote is Some {
            Err("unexpected EOF while looking for matching quote"@)
        } else {
            Ok(flush(st).toks)
        }
    } else {
        match lex_step(s, i, st, max) {
            Err(e) => Err(e),
            Ok((j, st2)) => if j <= i || j > s.len() {
                Err(Seq::empty())
            } else {
                lex_from(s, j, st2, max)
            },
        }
    }
}

/// The tokens of a script.
pub open spec fn lex_spec(s: Seq<char>, max: usize) -> Result<Seq<TokenV>, Seq<char>> {
    lex_from(s, 0, initial_lex_state(), max)
}

}

verus! {

// ─── The lexer ──────────────────────────────────────────────────────────────

pub open spec fn state_of(tokens: Seq<Token>, current: Word, started: bool, quote: Option<Quote>) -> LexState {
    LexState { toks: tokens_view(tokens), cur: current@, started: started, quote: quote }
}

fn push_part(word: &mut Word, ch: char, kind: WordPartKind, current_started: &mut bool)
    ensures
        final(word)@ == push_part_spec(old(word)@, ch, kind),
        *final(current_started),
{
    *current_started = true;
    // Merge adjacent parts of the same kind (but never merge CommandSub)
    let n = word.parts.len();
    if kind != WordPartKind::CommandSub && n > 0 && word.parts[n - 1].kind == kind {
        let ghost old_parts = word.parts@;
        let mut last = word.parts.pop().unwrap();
        push_char(&mut last.text, ch);
        word.parts.push(last);
        assert(word@ =~= push_part_spec(old(word)@, ch, kind));
        return;
    }
    let mut text = String::new();
    push_char(&mut text, ch);
    word.parts.push(WordPart { text, kind });
    assert(word@ =~= push_part_spec(old(word)@, ch, kind));
}

fn push_word_token(tokens: &mut Vec<Token>, current: &mut Word, current_started: &mut bool)
    ensures
        state_of(final(tokens)@, *final(current), *final(current_started), None) == flush(
            state_of(old(tokens)@, *old(current), *old(current_started), None),
        ),
{
    if *current_started || current.parts.len() > 0 {
        let mut fresh = Word { parts: Vec::new() };
        std::mem::swap(&mut fresh, current);
        let ghost w = fresh@;
        tokens.push(Token::Word(fresh));
        *current_started = false;
        assert(tokens_view(tokens@) =~= tokens_view(old(tokens)@).push(TokenV::Word(w)));
        assert(current@ =~= Seq::<PartV>::empty());
    }
}

fn nesting_error(max: usize) -> (e: BashError)
    ensures
        parse_err(Err::<(), BashError>(e), nesting_msg(max)),
{
    let mut m: Vec<char> = Vec::new();
    let mut s = String::from_str("command substitution nesting exceeds limit (");
    push_decimal(&mut m, max);
    crate::text::push_chars(&mut s, &m);
    s.append(")");
    BashError::Parse(s)
}

/// Consume a command substitution body (after the opening `$(` has been
/// consumed, at index `i`). Returns the inner script text without the
/// enclosing `$(` / `)`, and the index after the closing `)`.
fn consume_command_substitution(s: &[char], from: usize, max_depth: usize) -> (r: Result<
    (String, usize),
    BashError,
>)
    requires
        from <= s.len(),
    ensures
        match cmdsub_from(s@, from as int, Seq::empty(), 1, 0, None, max_depth) {
            Ok((body, j)) => r matches Ok((t, k)) && t@ == body && k == j,
            Err(e) => parse_err(r, e),
        },
        match r { Ok((_, k)) => from < k && k <= s.len(), Err(_) => true },
{
    let mut output: Vec<char> = Vec::new();
    let mut depth: usize = 1;
    let mut parens: usize = 0;
    let mut quote: Option<Quote> = None;
    let mut i = from;
    let ghost start = i;
    let ghost goal = cmdsub_from(s@, i as int, Seq::empty(), 1, 0, None, max_depth);
    while i < s.len()
        invariant
            goal == cmdsub_from(s@, from as int, Seq::empty(), 1, 0, None, max_depth),
            from <= i <= s.len(),
            1 <= depth,
            depth <= max_depth || depth == 1,
            goal == cmdsub_from(s@, i as int, output@, depth as int, parens as int, quote, max_depth),
            parens <= i - from,
        decreases s.len() - i,
    {
        let ch = s[i];
        match quote {
            Some(Quote::Single) => {
                output.push(ch);
                if ch == '\'' {
                    quote = None;
                }
                i += 1;
            },
            Some(Quote::Double) => {
                output.push(ch);
                if ch == '"' {
                    quote = None;
                    i += 1;
                } else if ch == '\\' && i + 1 < s.len() {
                    output.push(s[i + 1]);
                    i += 2;
                } else {
                    i += 1;
                }
            },
            None => {
                if ch == '\'' {
                    output.push(ch);
                    quote = Some(Quote::Single);
                    i += 1;
                } else if ch == '"' {
                    output.push(ch);
                    quote = Some(Quote::Double);
                    i += 1;
                } else if ch == '\\' {
                    output.push(ch);
                    if i + 1 < s.len() {
                        output.push(s[i + 1]);
                        i += 2;
                    } else {
                        i += 1;
                    }
                } else if ch == '$' {
                    output.push(ch);
                    if i + 1 < s.len() && s[i + 1] == '(' {
                        output.push('(');
                        if depth >= max_depth {
                            return Err(nesting_error(max_depth));
                        }
                        depth += 1;
                        i += 2;
                    } else {
                        i += 1;
                    }
                } else if ch == '(' {
                    output.push(ch);
                    parens += 1;
                    i += 1;
                } else if ch == ')' && parens > 0 {
                    output.push(ch);
                    parens -= 1;
                    i += 1;
                } else if ch == ')' {
                    depth -= 1;
                    if depth == 0 {
                        // Return inner content without the closing ')'
                        return Ok((string_from_chars(&output), i + 1));
                    }
                    output.push(ch);
                    i += 1;
                } else {
                    output.push(ch);
                    i += 1;
                }
            },
        }
    }
    Err(parse_error("unexpected EOF while looking for matching `)`"))
}

/// Consume an arithmetic expansion body after `$((` (at index `i`) and stop at
/// the matching `))`; returns the body and the index after it.
fn consume_arithmetic_substitution(s: &[char], from: usize) -> (r: Result<(String, usize), BashError>)
    requires
        from <= s.len(),
    ensures
        match arith_from(s@, from as int, Seq::empty(), 0, None) {
            Ok((body, j)) => r matches Ok((t, k)) && t@ == body && k == j,
            Err(e) => parse_err(r, e),
        },
        match r { Ok((_, k)) => from < k && k <= s.len(), Err(_) => true },
{
    let mut output: Vec<char> = Vec::new();
    let mut depth: usize = 0;
    let mut quote: Option<Quote> = None;
    let mut i = from;
    let ghost start = i;
    let ghost goal = arith_from(s@, i as int, Seq::empty(), 0, None);
    while i < s.len()
        invariant
            goal == arith_from(s@, from as int, Seq::empty(), 0, None),
            from <= i <= s.len(),
            depth <= i,
            goal == arith_from(s@, i as int, output@, depth as int, quote),
        decreases s.len() - i,
    {
        let ch = s[i];
        match quote {
            Some(Quote::Single) => {
                output.push(ch);
                if ch == '\'' {
                    quote = None;
                }
                i += 1;
            },
            Some(Quote::Double) => {
                output.push(ch);
                if ch == '"' {
                    quote = None;
                }
                i += 1;
            },
            None => {
                if ch == '\'' {
                    output.push(ch);
                    quote = Some(Quote::Single);
                    i += 1;
                } else if ch == '"' {
                    output.push(ch);
                    quote = Some(Quote::Double);
                    i += 1;
                } else if ch == '\\' {
                    output.push(ch);
                    if i + 1 < s.len() {
                        output.push(s[i + 1]);
                        i += 2;
                    } else {
                        i += 1;
                    }
                } else if ch == '(' {
                    depth += 1;
                    output.push(ch);
                    i += 1;
                } else if ch == ')' {
                    if depth > 0 {
                        depth -= 1;
                        output.push(ch);
                        i += 1;
                    } else if i + 1 < s.len() && s[i + 1] == ')' {
                        return Ok((string_from_chars(&output), i + 2));
                    } else {
                        output.push(ch);
                        i += 1;
                    }
                } else {
                    output.push(ch);
                    i += 1;
                }
            },
        }
    }
    Err(parse_error("unexpected EOF while looking for matching '))'"))
}

}

verus! {

fn find_newline(s: &[char], from: usize) -> (k: usize)
    requires
        from <= s.len(),
    ensures
        k == find_from(s@, from as int, '\n'),
        from <= k <= s.len(),
{
    let mut k = from;
    while k < s.len() && s[k] != '\n'
        invariant
            from <= k <= s.len(),
            find_from(s@, from as int, '\n') == find_from(s@, k as int, '\n'),
        decreases s.len() - k,
    {
        k += 1;
    }
    k
}

/// The tokens of `source`; command substitutions may nest at most
/// `max_depth` deep.
pub fn lex(s: &[char], max_depth: usize) -> (r: Result<Vec<Token>, BashError>)
    ensures
        match lex_spec(s@, max_depth) {
            Ok(t) => r matches Ok(v) && tokens_view(v@) == t,
            Err(e) => parse_err(r, e),
        },
{
    let mut tokens: Vec<Token> = Vec::new();
    let mut current = Word { parts: Vec::new() };
    let mut current_started = false;
    let mut quote: Option<Quote> = None;
    let mut i: usize = 0;
    proof {
        assert(tokens_view(tokens@) =~= Seq::<TokenV>::empty());
        assert(current@ =~= Seq::<PartV>::empty());
    }
    while i < s.len()
        invariant
            i <= s.len(),
            lex_spec(s@, max_depth) == lex_from(
                s@,
                i as int,
                state_of(tokens@, current, current_started, quote),
                max_depth,
            ),
        decreases s.len() - i,
    {
        let ch = s[i];
        let ghost st = state_of(tokens@, current, current_started, quote);
        let ghost step = lex_step(s@, i as int, st, max_depth);
        assert(lex_from(s@, i as int, st, max_depth) == match step {
            Err(e) => Err(e),
            Ok((j, st2)) => if j <= i || j > s@.len() {
                Err(Seq::empty())
            } else {
                lex_from(s@, j, st2, max_depth)
            },
        });
        if quote.is_none() && ch == '#' && !current_started {
            let k = find_newline(s, i + 1);
            if k < s.len() {
                tokens.push(Token::Separator);
                assert(tokens_view(tokens@) =~= st.toks.push(TokenV::Separator));
                i = k + 1;
            } else {
                i = k;
            }
        } else if quote.is_none() && ch == '\'' {
            current_started = true;
            quote = Some(Quote::Single);
            i += 1;
        } else if quote.is_none() && ch == '"' {
            current_started = true;
            quote = Some(Quote::Double);
            i += 1;
        } else if (quote == Some(Quote::Single) && ch == '\'') || (quote == Some(Quote::Double) && ch == '"') {
            quote = None;
            i += 1;
        } else if quote.is_none() && is_whitespace(ch) && ch != '\n' {
            push_word_token(&mut tokens, &mut current, &mut current_started);
            i += 1;
        } else if quote.is_none() && (ch == '\n' || ch == ';') {
            push_word_token(&mut tokens, &mut current, &mut current_started);
            let ghost t0 = tokens@;
            tokens.push(Token::Separator);
            assert(tokens_view(tokens@) =~= tokens_view(t0).push(TokenV::Separator));
            i += 1;
        } else if quote.is_none() && ch == '|' {
            push_word_token(&mut tokens, &mut current, &mut current_started);
            let ghost t0 = tokens@;
            if i + 1 < s.len() && s[i + 1] == '|' {
                tokens.push(Token::OrIf);
                assert(tokens_view(tokens@) =~= tokens_view(t0).push(TokenV::OrIf));
                i += 2;
            } else {
                tokens.push(Token::Pipe);
                assert(tokens_view(tokens@) =~= tokens_view(t0).push(TokenV::Pipe));
                i += 1;
            }
        } else if quote.is_none() && ch == '&' {
            push_word_token(&mut tokens, &mut current, &mut current_started);
            let ghost t0 = tokens@;
            if i + 1 < s.len() && s[i + 1] == '&' {
                tokens.push(Token::AndIf);
                assert(tokens_view(tokens@) =~= tokens_view(t0).push(TokenV::AndIf));
                i += 2;
            } else {
                return Err(parse_error("syntax error near unexpected token `&'"));
            }
        } else if quote.is_none() && ch == '<' {
            push_word_token(&mut tokens, &mut current, &mut current_started);
            let ghost t0 = tokens@;
            tokens.push(Token::RedirectRead);
            assert(tokens_view(tokens@) =~= tokens_view(t0).push(TokenV::RedirectRead));
            i += 1;
        } else if quote.is_none() && ch == '>' {
            push_word_token(&mut tokens, &mut current, &mut current_started);
            let ghost t0 = tokens@;
            if i + 1 < s.len() && s[i + 1] == '>' {
                tokens.push(Token::RedirectAppend);
                assert(tokens_view(tokens@) =~= tokens_view(t0).push(TokenV::RedirectAppend));
                i += 2;
            } else {
                tokens.push(Token::RedirectWrite);
                assert(tokens_view(tokens@) =~= tokens_view(t0).push(TokenV::RedirectWrite));
                i += 1;
            }
        } else if quote == Some(Quote::Single) {
            // single-quoted character: Literal, no expansion
            push_part(&mut current, ch, WordPartKind::Literal, &mut current_started);
            i += 1;
        } else if ch == '$' {
            if i + 1 < s.len() && s[i + 1] == '(' {
                let body = if i + 2 < s.len() && s[i + 2] == '(' {
                    consume_arithmetic_substitution(s, i + 3)
                } else {
                    consume_command_substitution(s, i + 2, max_depth)
                };
                let (inner, j) = match body {
                    Ok(b) => b,
                    Err(e) => return Err(e),
                };
                // Each $(...) is its own CommandSub part (never merged)
                current_started = true;
                let ghost c0 = current@;
                current.parts.push(WordPart { text: inner, kind: WordPartKind::CommandSub });
                assert(current@ =~= c0.push(
                    PartV { text: inner@, kind: WordPartKind::CommandSub },
                ));
                i = j;
            } else {
                push_part(&mut current, '$', WordPartKind::Variable, &mut current_started);
                i += 1;
            }
        } else if ch == '\\' {
            // backslash escape (outside single quotes)
            if i + 1 < s.len() {
                push_part(&mut current, s[i + 1], WordPartKind::Variable, &mut current_started);
                i += 2;
            } else {
                i += 1;
            }
        } else {
            push_part(&mut current, ch, WordPartKind::Variable, &mut current_started);
            i += 1;
        }
        assert(step matches Ok((j, st2)) && j == i && st2 == state_of(
            tokens@,
            current,
            current_started,
            quote,
        ));
    }
    if quote.is_some() {
        return Err(parse_error("unexpected EOF while looking for matching quote"));
    }
    push_word_token(&mut tokens, &mut current, &mut current_started);
    Ok(tokens)
}

}
