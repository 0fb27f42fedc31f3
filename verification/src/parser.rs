use vstd::prelude::*;

use crate::fs::BashError;
use crate::lexer::{initial_lex_state, lemma_lex_mono, lex_spec, TokenV};
use crate::lexer::{lex, tokens_view, Token};
use crate::text::{eq_str, to_chars};

verus! {

// ─── Public limits ──────────────────────────────────────────────────────────

#[derive(Debug, Clone, Copy, PartialEq, Eq, Structural)]
pub struct ParseLimits {
    pub max_command_substitution_depth: usize,
}

impl Default for ParseLimits {
    fn default() -> (r: Self)
        ensures
            r.max_command_substitution_depth == 50,
    {
        ParseLimits { max_command_substitution_depth: 50 }
    }
}

// ─── Word representation ────────────────────────────────────────────────────

/// Determines how a [`WordPart`] is expanded during execution.
#[derive(Debug, Clone, Copy, PartialEq, Eq, Structural)]
pub enum WordPartKind {
    /// Single-quoted literal — copied verbatim, no `$` expansion.
    Literal,
    /// Normal text — `$VAR`, `${VAR}`, `$?`, `$1`, etc. are expanded (`$?` is the
    /// last status; a shell has no positional parameters, so `$1` is read like
    /// any other variable and is usually empty).
    Variable,
    /// Command substitution `$(…)` — the inner script is run and its stdout
    /// (trailing newlines stripped) replaces the word part.
    CommandSub,
}

#[derive(Debug, Clone, PartialEq, Eq)]
pub struct WordPart {
    pub text: String,
    pub kind: WordPartKind,
}

/// A word part as text and kind.
pub struct PartV {
    pub text: Seq<char>,
    pub kind: WordPartKind,
}

impl View for WordPart {
    type V = PartV;

    open spec fn view(&self) -> PartV {
        PartV { text: self.text@, kind: self.kind }
    }
}

#[derive(Debug, Clone, PartialEq, Eq)]
pub struct Word {
    pub parts: Vec<WordPart>,
}

impl View for Word {
    type V = Seq<PartV>;

    open spec fn view(&self) -> Seq<PartV> {
        self.parts@.map_values(|p: WordPart| p@)
    }
}

/// The raw text of a word: its parts' texts joined.
pub open spec fn word_text(w: Seq<PartV>) -> Seq<char>
    decreases w.len(),
{
    if w.len() == 0 {
        Seq::empty()
    } else {
        word_text(w.drop_last()) + w.last().text
    }
}

pub fn copy_part(p: &WordPart) -> (r: WordPart)
    ensures
        r@ == p@,
{
    WordPart { text: p.text.clone(), kind: p.kind }
}

pub fn copy_word(w: &Word) -> (r: Word)
    ensures
        r@ == w@,
{
    let mut parts: Vec<WordPart> = Vec::new();
    let mut i: usize = 0;
    while i < w.parts.len()
        invariant
            i <= w.parts@.len(),
            parts@.len() == i,
            forall|j: int| 0 <= j < i ==> #[trigger] parts@[j]@ == w.parts@[j]@,
        decreases w.parts@.len() - i,
    {
        parts.push(copy_part(&w.parts[i]));
        i += 1;
    }
    let r = Word { parts };
    assert(r@ =~= w@);
    r
}

impl Word {
    /// Create a single-part word that will be variable-expanded.
    pub fn literal(value: &str) -> (r: Self)
        ensures
            r@ == seq![PartV { text: value@, kind: WordPartKind::Variable }],
    {
        let mut parts: Vec<WordPart> = Vec::new();
        parts.push(WordPart { text: String::from_str(value), kind: WordPartKind::Variable });
        let r = Word { parts };
        assert(r@ =~= seq![PartV { text: value@, kind: WordPartKind::Variable }]);
        r
    }

    /// Return the raw (unexpanded) text of all parts joined.
    pub fn text(&self) -> (r: String)
        ensures
            r@ == word_text(self@),
    {
        let mut out = String::new();
        let mut i: usize = 0;
        while i < self.parts.len()
            invariant
                i <= self.parts@.len(),
                out@ == word_text(self@.take(i as int)),
            decreases self.parts@.len() - i,
        {
            assert(self@.take(i + 1).drop_last() == self@.take(i as int));
            assert(self@.take(i + 1).last() == self.parts@[i as int]@);
            out.append(self.parts[i].text.as_str());
            i += 1;
        }
        assert(self@.take(self.parts@.len() as int) == self@);
        out
    }
}

/// `r` failed with a parse error carrying message `e`.
pub open spec fn parse_err<T>(r: Result<T, BashError>, e: Seq<char>) -> bool {
    r matches Err(BashError::Parse(m)) && m@ == e
}

pub fn parse_error(msg: &str) -> (e: BashError)
    ensures
        e matches BashError::Parse(m) && m@ == msg@,
{
    BashError::Parse(String::from_str(msg))
}

}

verus! {

// ─── Redirections, commands and statements ──────────────────────────────────

#[derive(Debug, Clone, Copy, PartialEq, Eq, Structural)]
pub enum RedirectMode {
    Read,
    Write,
    Append,
}

#[derive(Debug, Clone, PartialEq, Eq)]
pub struct Redirect {
    pub mode: RedirectMode,
    pub target: Word,
}

#[derive(Debug, Clone, PartialEq, Eq)]
pub struct CommandInvocation {
    pub words: Vec<Word>,
    pub redirects: Vec<Redirect>,
}

#[derive(Debug, Clone, Copy, PartialEq, Eq, Structural)]
pub enum PipelineConnector {
    Always,
    And,
    Or,
}

#[derive(Debug, PartialEq, Eq)]
pub struct IfStatement {
    pub condition: Vec<Statement>,
    pub body: Vec<Statement>,
    pub elif_clauses: Vec<(Vec<Statement>, Vec<Statement>)>,
    pub else_body: Option<Vec<Statement>>,
}

#[derive(Debug, PartialEq, Eq)]
pub struct WhileStatement {
    pub condition: Vec<Statement>,
    pub body: Vec<Statement>,
}

#[derive(Debug, PartialEq, Eq)]
pub struct ForStatement {
    pub var: String,
    pub items: Vec<Word>,
    pub body: Vec<Statement>,
}

#[derive(Debug, PartialEq, Eq)]
pub enum StatementKind {
    Pipeline(Vec<CommandInvocation>),
    If(IfStatement),
    While(WhileStatement),
    For(ForStatement),
}

#[derive(Debug, PartialEq, Eq)]
pub struct Statement {
    /// How this statement connects to the previous one.
    pub connector: PipelineConnector,
    pub kind: StatementKind,
}

#[derive(Debug, PartialEq, Eq)]
pub struct Script {
    pub statements: Vec<Statement>,
}

// ─── Copies of statements ───────────────────────────────────────────────────

fn clone_statements(v: &Vec<Statement>) -> (r: Vec<Statement>)
    decreases v, 0nat,
{
    let mut r: Vec<Statement> = Vec::new();
    let mut i: usize = 0;
    while i < v.len()
        invariant
            i <= v.len(),
        decreases v.len() - i,
    {
        proof {
            assert(decreases_to!(v => v@));
            assert(decreases_to!(v@ => v@[i as int]));
        }
        r.push(clone_statement(&v[i]));
        i += 1;
    }
    r
}

fn clone_elifs(v: &Vec<(Vec<Statement>, Vec<Statement>)>) -> (r: Vec<(Vec<Statement>, Vec<Statement>)>)
    decreases v, 0nat,
{
    let mut r: Vec<(Vec<Statement>, Vec<Statement>)> = Vec::new();
    let mut i: usize = 0;
    while i < v.len()
        invariant
            i <= v.len(),
        decreases v.len() - i,
    {
        proof {
            assert(decreases_to!(v => v@));
            assert(decreases_to!(v@ => v@[i as int]));
        }
        let c = clone_statements(&v[i].0);
        let b = clone_statements(&v[i].1);
        r.push((c, b));
        i += 1;
    }
    r
}

fn clone_if(f: &IfStatement) -> (r: IfStatement)
    decreases f, 0nat,
{
    let else_body = match &f.else_body {
        Some(b) => Some(clone_statements(b)),
        None => None,
    };
    IfStatement {
        condition: clone_statements(&f.condition),
        body: clone_statements(&f.body),
        elif_clauses: clone_elifs(&f.elif_clauses),
        else_body,
    }
}

fn clone_statement(s: &Statement) -> (r: Statement)
    decreases s, 0nat,
{
    let kind = match &s.kind {
        StatementKind::Pipeline(cmds) => StatementKind::Pipeline(cmds.clone()),
        StatementKind::If(f) => StatementKind::If(clone_if(f)),
        StatementKind::While(w) => StatementKind::While(
            WhileStatement { condition: clone_statements(&w.condition), body: clone_statements(&w.body) },
        ),
        StatementKind::For(f) => StatementKind::For(
            ForStatement { var: f.var.clone(), items: f.items.clone(), body: clone_statements(&f.body) },
        ),
    };
    Statement { connector: s.connector, kind }
}

impl Clone for Statement {
    fn clone(&self) -> Self {
        clone_statement(self)
    }
}

impl Clone for IfStatement {
    fn clone(&self) -> Self {
        clone_if(self)
    }
}

impl Clone for WhileStatement {
    fn clone(&self) -> Self {
        WhileStatement { condition: clone_statements(&self.condition), body: clone_statements(&self.body) }
    }
}

impl Clone for ForStatement {
    fn clone(&self) -> Self {
        ForStatement { var: self.var.clone(), items: self.items.clone(), body: clone_statements(&self.body) }
    }
}

impl Clone for StatementKind {
    fn clone(&self) -> Self {
        match self {
            StatementKind::Pipeline(cmds) => StatementKind::Pipeline(cmds.clone()),
            StatementKind::If(f) => StatementKind::If(f.clone()),
            StatementKind::While(w) => StatementKind::While(w.clone()),
            StatementKind::For(f) => StatementKind::For(f.clone()),
        }
    }
}

impl Clone for Script {
    fn clone(&self) -> Self {
        Script { statements: clone_statements(&self.statements) }
    }
}

// ─── Their views ────────────────────────────────────────────────────────────

pub struct RedirectV {
    pub mode: RedirectMode,
    pub target: Seq<PartV>,
}

pub struct CommandV {
    pub words: Seq<Seq<PartV>>,
    pub redirects: Seq<RedirectV>,
}

pub struct IfV {
    pub condition: Seq<StmtV>,
    pub body: Seq<StmtV>,
    pub elifs: Seq<(Seq<StmtV>, Seq<StmtV>)>,
    pub else_body: Option<Seq<StmtV>>,
}

pub struct WhileV {
    pub condition: Seq<StmtV>,
    pub body: Seq<StmtV>,
}

pub struct ForV {
    pub var: Seq<char>,
    pub items: Seq<Seq<PartV>>,
    pub body: Seq<StmtV>,
}

pub enum KindV {
    Pipeline(Seq<CommandV>),
    If(IfV),
    While(WhileV),
    For(ForV),
}

pub struct StmtV {
    pub connector: PipelineConnector,
    pub kind: KindV,
}

impl View for Redirect {
    type V = RedirectV;

    open spec fn view(&self) -> RedirectV {
        RedirectV { mode: self.mode, target: self.target@ }
    }
}

pub open spec fn words_view(v: Seq<Word>) -> Seq<Seq<PartV>> {
    v.map_values(|w: Word| w@)
}

impl View for CommandInvocation {
    type V = CommandV;

    open spec fn view(&self) -> CommandV {
        CommandV {
            words: words_view(self.words@),
            redirects: self.redirects@.map_values(|r: Redirect| r@),
        }
    }
}

pub open spec fn stmts_view(v: &Vec<Statement>) -> Seq<StmtV>
    decreases v, 0nat,
{
    Seq::new(
        v.len() as nat,
        |i: int|
            if 0 <= i < v@.len() {
                stmt_view(&v@[i])
            } else {
                StmtV { connector: PipelineConnector::Always, kind: KindV::Pipeline(Seq::empty()) }
            },
    )
}

pub open spec fn elifs_view(v: &Vec<(Vec<Statement>, Vec<Statement>)>) -> Seq<(Seq<StmtV>, Seq<StmtV>)>
    decreases v, 0nat,
{
    Seq::new(
        v.len() as nat,
        |i: int|
            if 0 <= i < v@.len() {
                (stmts_view(&v@[i].0), stmts_view(&v@[i].1))
            } else {
                (Seq::empty(), Seq::empty())
            },
    )
}

pub open spec fn stmt_view(s: &Statement) -> StmtV
    decreases s, 1nat,
{
    StmtV { connector: s.connector, kind: kind_view(&s.kind) }
}

pub open spec fn kind_view(k: &StatementKind) -> KindV
    decreases k, 0nat,
{
    match k {
        StatementKind::Pipeline(c) => KindV::Pipeline(c@.map_values(|x: CommandInvocation| x@)),
        StatementKind::If(f) => KindV::If(
            IfV {
                condition: stmts_view(&f.condition),
                body: stmts_view(&f.body),
                elifs: elifs_view(&f.elif_clauses),
                else_body: match &f.else_body {
                    Some(b) => Some(stmts_view(b)),
                    None => None,
                },
            },
        ),
        StatementKind::While(w) => KindV::While(
            WhileV { condition: stmts_view(&w.condition), body: stmts_view(&w.body) },
        ),
        StatementKind::For(f) => KindV::For(
            ForV { var: f.var@, items: words_view(f.items@), body: stmts_view(&f.body) },
        ),
    }
}

pub open spec fn opt_kind_view(k: Option<StatementKind>) -> Option<KindV> {
    match k {
        Some(k) => Some(kind_view(&k)),
        None => None,
    }
}

}

verus! {

// ─── The grammar as a function of the tokens ────────────────────────────────

/// Keywords that end a statement list.
#[derive(Debug, Clone, Copy, PartialEq, Eq, Structural)]
pub enum Terms {
    Nothing,
    Then,
    ElifElseFi,
    Do,
    Done,
    Fi,
}

pub open spec fn is_term(terms: Terms, text: Seq<char>) -> bool {
    match terms {
        Terms::Nothing => false,
        Terms::Then => text == "then"@,
        Terms::ElifElseFi => text == "elif"@ || text == "else"@ || text == "fi"@,
        Terms::Do => text == "do"@,
        Terms::Done => text == "done"@,
        Terms::Fi => text == "fi"@,
    }
}

pub open spec fn is_keyword_at(t: Seq<TokenV>, pos: int, terms: Terms) -> bool {
    0 <= pos < t.len() && (t[pos] matches TokenV::Word(w) && is_term(terms, word_text(w)))
}

pub open spec fn is_word_at(t: Seq<TokenV>, pos: int, kw: Seq<char>) -> bool {
    0 <= pos < t.len() && (t[pos] matches TokenV::Word(w) && word_text(w) == kw)
}

pub open spec fn skip_seps(t: Seq<TokenV>, pos: int) -> int
    decreases t.len() - pos,
{
    if 0 <= pos < t.len() && t[pos] is Separator {
        skip_seps(t, pos + 1)
    } else {
        pos
    }
}

pub open spec fn near_msg(text: Seq<char>) -> Seq<char> {
    "syntax error near unexpected token `"@ + text + "'"@
}

pub open spec fn connector_msg(c: PipelineConnector) -> Seq<char> {
    near_msg(if c == PipelineConnector::And { "&&"@ } else { "||"@ })
}

pub open spec fn expect_spec(t: Seq<TokenV>, pos: int, kw: Seq<char>) -> Result<int, Seq<char>> {
    let p = skip_seps(t, pos);
    if 0 <= p < t.len() {
        match t[p] {
            TokenV::Word(w) => if word_text(w) == kw {
                Ok(p + 1)
            } else {
                Err(near_msg(word_text(w)))
            },
            _ => Err("syntax error: expected '"@ + kw + "'"@),
        }
    } else {
        Err("syntax error: unexpected end of file, expected '"@ + kw + "'"@)
    }
}

pub open spec fn push_command(cmds: Seq<CommandV>, words: Seq<Seq<PartV>>, redirs: Seq<RedirectV>) -> Seq<
    CommandV,
> {
    if words.len() > 0 || redirs.len() > 0 {
        cmds.push(CommandV { words: words, redirects: redirs })
    } else {
        cmds
    }
}

pub open spec fn pipe_end(
    cmds: Seq<CommandV>,
    words: Seq<Seq<PartV>>,
    redirs: Seq<RedirectV>,
    pending: bool,
    pos: int,
) -> Result<(Option<KindV>, int), Seq<char>> {
    if pending {
        Err(near_msg("newline"@))
    } else {
        let all = push_command(cmds, words, redirs);
        if all.len() == 0 {
            Ok((None, pos))
        } else {
            Ok((Some(KindV::Pipeline(all)), pos))
        }
    }
}

/// A pipeline from `pos` on: commands joined by `|`, each words and redirections.
pub open spec fn pipe_from(
    t: Seq<TokenV>,
    pos: int,
    terms: Terms,
    cmds: Seq<CommandV>,
    words: Seq<Seq<PartV>>,
    redirs: Seq<RedirectV>,
    pending: bool,
) -> Result<(Option<KindV>, int), Seq<char>>
    decreases t.len() - pos,
{
    if pos < 0 || pos >= t.len() {
        pipe_end(cmds, words, redirs, pending, pos)
    } else {
        match t[pos] {
            TokenV::Word(w) => if is_keyword_at(t, pos, terms) {
                pipe_end(cmds, words, redirs, pending, pos)
            } else {
                pipe_from(t, pos + 1, terms, cmds, words.push(w), redirs, false)
            },
            TokenV::RedirectRead | TokenV::RedirectWrite | TokenV::RedirectAppend => {
                let mode = if t[pos] is RedirectRead {
                    RedirectMode::Read
                } else if t[pos] is RedirectWrite {
                    RedirectMode::Write
                } else {
                    RedirectMode::Append
                };
                if pos + 1 < t.len() && t[pos + 1] is Word {
                    pipe_from(
                        t,
                        pos + 2,
                        terms,
                        cmds,
                        words,
                        redirs.push(RedirectV { mode: mode, target: t[pos + 1]->Word_0 }),
                        false,
                    )
                } else {
                    Err(near_msg("newline"@))
                }
            },
            TokenV::Pipe => if words.len() == 0 && redirs.len() == 0 && cmds.len() == 0 {
                pipe_from(t, pos + 1, terms, cmds, words, redirs, pending)
            } else if words.len() == 0 && redirs.len() == 0 {
                Err(near_msg("|"@))
            } else {
                pipe_from(t, pos + 1, terms, push_command(cmds, words, redirs), Seq::empty(), Seq::empty(), true)
            },
            _ => if pending {
                Err(
                    near_msg(
                        if t[pos] is AndIf {
                            "&&"@
                        } else if t[pos] is OrIf {
                            "||"@
                        } else {
                            "newline"@
                        },
                    ),
                )
            } else {
                pipe_end(cmds, words, redirs, pending, pos)
            },
        }
    }
}

/// The items of a `for` loop: words up to `do` or a separator (which is consumed).
pub open spec fn for_items(t: Seq<TokenV>, pos: int, acc: Seq<Seq<PartV>>) -> (Seq<Seq<PartV>>, int)
    decreases t.len() - pos,
{
    if pos < 0 || pos >= t.len() {
        (acc, pos)
    } else {
        match t[pos] {
            TokenV::Word(w) => if word_text(w) == "do"@ {
                (acc, pos)
            } else {
                for_items(t, pos + 1, acc.push(w))
            },
            TokenV::Separator => (acc, pos + 1),
            _ => (acc, pos),
        }
    }
}

pub open spec fn in_range(t: Seq<TokenV>, lo: int, p: int) -> bool {
    lo <= p <= t.len()
}

/// A statement list from `pos` on, stopping before a keyword in `terms`.
pub open spec fn stmts_spec(t: Seq<TokenV>, pos: int, terms: Terms) -> Result<(Seq<StmtV>, int), Seq<char>>
    decreases t.len() - pos, 3int,
{
    if pos < 0 || pos > t.len() {
        Err(Seq::empty())
    } else {
        stmts_loop(t, pos, terms, Seq::empty(), PipelineConnector::Always)
    }
}

pub open spec fn stmts_finish(t: Seq<TokenV>, acc: Seq<StmtV>, conn: PipelineConnector, p: int) -> Result<
    (Seq<StmtV>, int),
    Seq<char>,
> {
    if conn != PipelineConnector::Always && p >= t.len() {
        Err(connector_msg(conn))
    } else {
        Ok((acc, p))
    }
}

pub open spec fn stmts_loop(
    t: Seq<TokenV>,
    pos: int,
    terms: Terms,
    acc: Seq<StmtV>,
    conn: PipelineConnector,
) -> Result<(Seq<StmtV>, int), Seq<char>>
    decreases t.len() - pos, 2int,
{
    if pos < 0 || pos > t.len() {
        Err(Seq::empty())
    } else {
        let p = skip_seps(t, pos);
        if !in_range(t, pos, p) {
            Err(Seq::empty())
        } else if p >= t.len() || is_keyword_at(t, p, terms) {
            stmts_finish(t, acc, conn, p)
        } else {
            match single_spec(t, p, terms) {
                Err(e) => Err(e),
                Ok((None, p2)) => if conn != PipelineConnector::Always {
                    Err(connector_msg(conn))
                } else {
                    stmts_finish(t, acc, conn, p2)
                },
                Ok((Some(kind), p2)) => if !in_range(t, p + 1, p2) {
                    Err(Seq::empty())
                } else {
                    let acc2 = acc.push(StmtV { connector: conn, kind: kind });
                    if p2 < t.len() && t[p2] is AndIf {
                        stmts_loop(t, p2 + 1, terms, acc2, PipelineConnector::And)
                    } else if p2 < t.len() && t[p2] is OrIf {
                        stmts_loop(t, p2 + 1, terms, acc2, PipelineConnector::Or)
                    } else {
                        stmts_loop(t, p2, terms, acc2, PipelineConnector::Always)
                    }
                },
            }
        }
    }
}

/// One statement at `pos`: an `if`, `while` or `for` compound, or a pipeline.
pub open spec fn single_spec(t: Seq<TokenV>, pos: int, terms: Terms) -> Result<(Option<KindV>, int), Seq<char>>
    decreases t.len() - pos, 1int,
{
    if pos < 0 || pos > t.len() {
        Err(Seq::empty())
    } else {
        let p = skip_seps(t, pos);
        if !in_range(t, pos, p) {
            Err(Seq::empty())
        } else if p >= t.len() {
            Ok((None, p))
        } else if is_keyword_at(t, p, terms) {
            Ok((None, p))
        } else if is_word_at(t, p, "if"@) {
            match if_spec(t, p + 1) {
                Err(e) => Err(e),
                Ok((f, q)) => Ok((Some(KindV::If(f)), q)),
            }
        } else if is_word_at(t, p, "while"@) {
            match while_spec(t, p + 1) {
                Err(e) => Err(e),
                Ok((w, q)) => Ok((Some(KindV::While(w)), q)),
            }
        } else if is_word_at(t, p, "for"@) {
            match for_spec(t, p + 1) {
                Err(e) => Err(e),
                Ok((f, q)) => Ok((Some(KindV::For(f)), q)),
            }
        } else {
            pipe_from(t, p, terms, Seq::empty(), Seq::empty(), Seq::empty(), false)
        }
    }
}

pub open spec fn elifs_spec(t: Seq<TokenV>, pos: int, acc: Seq<(Seq<StmtV>, Seq<StmtV>)>) -> Result<
    (Seq<(Seq<StmtV>, Seq<StmtV>)>, int),
    Seq<char>,
>
    decreases t.len() - pos, 6int,
{
    if pos < 0 || pos > t.len() {
        Err(Seq::empty())
    } else {
        let p = skip_seps(t, pos);
        if !in_range(t, pos, p) {
            Err(Seq::empty())
        } else if !is_word_at(t, p, "elif"@) {
            Ok((acc, p))
        } else {
            match stmts_spec(t, p + 1, Terms::Then) {
                Err(e) => Err(e),
                Ok((c, p1)) => elif_then(t, pos, acc, c, p1),
            }
        }
    }
}

/// An `elif` clause after its condition (which ended at `p1`).
pub open spec fn elif_then(
    t: Seq<TokenV>,
    pos: int,
    acc: Seq<(Seq<StmtV>, Seq<StmtV>)>,
    c: Seq<StmtV>,
    p1: int,
) -> Result<(Seq<(Seq<StmtV>, Seq<StmtV>)>, int), Seq<char>>
    decreases t.len() - pos, 5int,
{
    if !(0 <= pos < p1 <= t.len()) {
        Err(Seq::empty())
    } else {
        match expect_spec(t, p1, "then"@) {
            Err(e) => Err(e),
            Ok(p2) => if !in_range(t, p1, p2) {
                Err(Seq::empty())
            } else {
                match stmts_spec(t, p2, Terms::ElifElseFi) {
                    Err(e) => Err(e),
                    Ok((b, p3)) => if !in_range(t, p2, p3) {
                        Err(Seq::empty())
                    } else {
                        elifs_spec(t, p3, acc.push((c, b)))
                    },
                }
            },
        }
    }
}

pub open spec fn if_spec(t: Seq<TokenV>, pos: int) -> Result<(IfV, int), Seq<char>>
    decreases t.len() - pos, 10int,
{
    if pos < 0 || pos > t.len() {
        Err(Seq::empty())
    } else {
        match stmts_spec(t, pos, Terms::Then) {
            Err(e) => Err(e),
            Ok((cond, p1)) => if_then(t, pos, cond, p1),
        }
    }
}

/// An `if` compound after its condition (which ended at `p1`).
pub open spec fn if_then(t: Seq<TokenV>, pos: int, cond: Seq<StmtV>, p1: int) -> Result<(IfV, int), Seq<char>>
    decreases t.len() - pos, 9int,
{
    if !(0 <= pos <= p1 <= t.len()) {
        Err(Seq::empty())
    } else {
        match expect_spec(t, p1, "then"@) {
            Err(e) => Err(e),
            Ok(p2) => if !in_range(t, p1, p2) {
                Err(Seq::empty())
            } else {
                match stmts_spec(t, p2, Terms::ElifElseFi) {
                    Err(e) => Err(e),
                    Ok((body, p3)) => if_elifs(t, pos, cond, body, p3),
                }
            },
        }
    }
}

/// An `if` compound after its body (which ended at `p3`).
pub open spec fn if_elifs(t: Seq<TokenV>, pos: int, cond: Seq<StmtV>, body: Seq<StmtV>, p3: int) -> Result<
    (IfV, int),
    Seq<char>,
>
    decreases t.len() - pos, 8int,
{
    if !(0 <= pos <= p3 <= t.len()) {
        Err(Seq::empty())
    } else {
        match elifs_spec(t, p3, Seq::empty()) {
            Err(e) => Err(e),
            Ok((elifs, p4)) => if_else(t, pos, cond, body, elifs, p4),
        }
    }
}

/// An `if` compound after its `elif` clauses (which ended at `p4`).
pub open spec fn if_else(
    t: Seq<TokenV>,
    pos: int,
    cond: Seq<StmtV>,
    body: Seq<StmtV>,
    elifs: Seq<(Seq<StmtV>, Seq<StmtV>)>,
    p4: int,
) -> Result<(IfV, int), Seq<char>>
    decreases t.len() - pos, 7int,
{
    if !(0 <= pos <= p4 <= t.len()) {
        Err(Seq::empty())
    } else {
        let p5 = skip_seps(t, p4);
        let else_part: Result<(Option<Seq<StmtV>>, int), Seq<char>> = if !in_range(t, p4, p5) {
            Err(Seq::empty())
        } else if is_word_at(t, p5, "else"@) {
            match stmts_spec(t, p5 + 1, Terms::Fi) {
                Err(e) => Err(e),
                Ok((eb, p6)) => Ok((Some(eb), p6)),
            }
        } else {
            Ok((None, p5))
        };
        match else_part {
            Err(e) => Err(e),
            Ok((eb, p6)) => match expect_spec(t, p6, "fi"@) {
                Err(e) => Err(e),
                Ok(p7) => Ok((IfV { condition: cond, body: body, elifs: elifs, else_body: eb }, p7)),
            },
        }
    }
}

pub open spec fn while_spec(t: Seq<TokenV>, pos: int) -> Result<(WhileV, int), Seq<char>>
    decreases t.len() - pos, 10int,
{
    if pos < 0 || pos > t.len() {
        Err(Seq::empty())
    } else {
        match stmts_spec(t, pos, Terms::Do) {
            Err(e) => Err(e),
            Ok((cond, p1)) => while_do(t, pos, cond, p1),
        }
    }
}

/// A `while` loop after its condition (which ended at `p1`).
pub open spec fn while_do(t: Seq<TokenV>, pos: int, cond: Seq<StmtV>, p1: int) -> Result<(WhileV, int), Seq<char>>
    decreases t.len() - pos, 9int,
{
    if !(0 <= pos <= p1 <= t.len()) {
        Err(Seq::empty())
    } else {
        match expect_spec(t, p1, "do"@) {
            Err(e) => Err(e),
            Ok(p2) => if !in_range(t, p1, p2) {
                Err(Seq::empty())
            } else {
                match stmts_spec(t, p2, Terms::Done) {
                    Err(e) => Err(e),
                    Ok((body, p3)) => match expect_spec(t, p3, "done"@) {
                        Err(e) => Err(e),
                        Ok(p4) => Ok((WhileV { condition: cond, body: body }, p4)),
                    },
                }
            },
        }
    }
}

pub open spec fn for_spec(t: Seq<TokenV>, pos: int) -> Result<(ForV, int), Seq<char>>
    decreases t.len() - pos, 10int,
{
    if pos < 0 || pos > t.len() {
        Err(Seq::empty())
    } else {
        let p = skip_seps(t, pos);
        if !(0 <= p < t.len() && t[p] is Word) {
            Err("syntax error: expected variable name after 'for'"@)
        } else {
            let var = word_text(t[p]->Word_0);
            let p2 = skip_seps(t, p + 1);
            if !is_word_at(t, p2, "in"@) {
                Err("syntax error: expected 'in' after for variable"@)
            } else {
                let (items, p4) = for_items(t, p2 + 1, Seq::empty());
                let p5 = skip_seps(t, p4);
                if !is_word_at(t, p5, "do"@) {
                    Err("syntax error: expected 'do' in for loop"@)
                } else if !in_range(t, pos, p5 + 1) {
                    Err(Seq::empty())
                } else {
                    match stmts_spec(t, p5 + 1, Terms::Done) {
                        Err(e) => Err(e),
                        Ok((body, p6)) => match expect_spec(t, p6, "done"@) {
                            Err(e) => Err(e),
                            Ok(p7) => Ok((ForV { var: var, items: items, body: body }, p7)),
                        },
                    }
                }
            }
        }
    }
}

/// The statements of a token stream, which must all be consumed.
pub open spec fn parse_tokens_spec(t: Seq<TokenV>) -> Result<Seq<StmtV>, Seq<char>> {
    match stmts_spec(t, 0, Terms::Nothing) {
        Err(e) => Err(e),
        Ok((st, p)) => if p < t.len() {
            if t[p] is Word {
                Err(near_msg(word_text(t[p]->Word_0)))
            } else {
                Err("syntax error near unexpected token"@)
            }
        } else {
            Ok(st)
        },
    }
}

/// What parsing `src` gives: its statements, or a syntax error's message.
pub open spec fn script_spec(src: Seq<char>, limits: ParseLimits) -> Result<Seq<StmtV>, Seq<char>> {
    match lex_spec(src, limits.max_command_substitution_depth) {
        Err(e) => Err(e),
        Ok(t) => parse_tokens_spec(t),
    }
}

}

verus! {

// ─── The recursive-descent parser ───────────────────────────────────────────

fn near_error(text: &str) -> (e: BashError)
    ensures
        e matches BashError::Parse(m) && m@ == near_msg(text@),
{
    let mut m = String::from_str("syntax error near unexpected token `");
    m.append(text);
    m.append("'");
    BashError::Parse(m)
}

fn word_is(w: &Word, kw: &str) -> (r: bool)
    ensures
        r == (word_text(w@) == kw@),
{
    let t = w.text();
    let a = to_chars(t.as_str());
    eq_str(&a, kw)
}

fn is_term_word(terms: Terms, w: &Word) -> (r: bool)
    ensures
        r == is_term(terms, word_text(w@)),
{
    match terms {
        Terms::Nothing => false,
        Terms::Then => word_is(w, "then"),
        Terms::ElifElseFi => word_is(w, "elif") || word_is(w, "else") || word_is(w, "fi"),
        Terms::Do => word_is(w, "do"),
        Terms::Done => word_is(w, "done"),
        Terms::Fi => word_is(w, "fi"),
    }
}

fn skip_separators(tokens: &[Token], pos: usize) -> (r: usize)
    requires
        pos <= tokens.len(),
    ensures
        r == skip_seps(tokens_view(tokens@), pos as int),
        pos <= r <= tokens.len(),
{
    let ghost t = tokens_view(tokens@);
    let mut p = pos;
    while p < tokens.len() && matches!(tokens[p], Token::Separator)
        invariant
            pos <= p <= tokens.len(),
            t == tokens_view(tokens@),
            skip_seps(t, pos as int) == skip_seps(t, p as int),
        decreases tokens.len() - p,
    {
        p += 1;
    }
    p
}

fn is_keyword_at_exec(tokens: &[Token], pos: usize, terms: Terms) -> (r: bool)
    ensures
        r == is_keyword_at(tokens_view(tokens@), pos as int, terms),
{
    if pos < tokens.len() {
        match &tokens[pos] {
            Token::Word(w) => is_term_word(terms, w),
            _ => false,
        }
    } else {
        false
    }
}

fn is_word_at_exec(tokens: &[Token], pos: usize, kw: &str) -> (r: bool)
    ensures
        r == is_word_at(tokens_view(tokens@), pos as int, kw@),
{
    if pos < tokens.len() {
        match &tokens[pos] {
            Token::Word(w) => word_is(w, kw),
            _ => false,
        }
    } else {
        false
    }
}

fn expect_keyword(tokens: &[Token], pos: usize, keyword: &str) -> (r: Result<usize, BashError>)
    requires
        pos <= tokens.len(),
    ensures
        match expect_spec(tokens_view(tokens@), pos as int, keyword@) {
            Ok(p) => r == Ok::<usize, BashError>(p as usize) && pos < p <= tokens.len(),
            Err(e) => parse_err(r, e),
        },
{
    let p = skip_separators(tokens, pos);
    if p < tokens.len() {
        match &tokens[p] {
            Token::Word(w) => {
                if word_is(w, keyword) {
                    Ok(p + 1)
                } else {
                    let t = w.text();
                    Err(near_error(t.as_str()))
                }
            },
            _ => {
                let mut m = String::from_str("syntax error: expected '");
                m.append(keyword);
                m.append("'");
                Err(BashError::Parse(m))
            },
        }
    } else {
        let mut m = String::from_str("syntax error: unexpected end of file, expected '");
        m.append(keyword);
        m.append("'");
        Err(BashError::Parse(m))
    }
}

pub open spec fn redirects_view(v: Seq<Redirect>) -> Seq<RedirectV> {
    v.map_values(|r: Redirect| r@)
}

pub open spec fn commands_view(v: Seq<CommandInvocation>) -> Seq<CommandV> {
    v.map_values(|c: CommandInvocation| c@)
}

fn push_command_to(
    commands: &mut Vec<CommandInvocation>,
    words: &mut Vec<Word>,
    redirects: &mut Vec<Redirect>,
)
    ensures
        commands_view(final(commands)@) == push_command(
            commands_view(old(commands)@),
            words_view(old(words)@),
            redirects_view(old(redirects)@),
        ),
        final(words)@.len() == 0,
        final(redirects)@.len() == 0,
{
    if words.len() > 0 || redirects.len() > 0 {
        let mut w: Vec<Word> = Vec::new();
        let mut r: Vec<Redirect> = Vec::new();
        std::mem::swap(&mut w, words);
        std::mem::swap(&mut r, redirects);
        let c = CommandInvocation { words: w, redirects: r };
        let ghost cv = c@;
        let ghost before = commands_view(commands@);
        commands.push(c);
        assert(commands_view(commands@) =~= before.push(cv));
    } else {
        assert(words_view(words@) =~= Seq::<Seq<PartV>>::empty());
        assert(redirects_view(redirects@) =~= Seq::<RedirectV>::empty());
    }
}

/// Parse a pipeline: one or more commands joined by `|`.
fn parse_pipeline_statement(tokens: &[Token], start: usize, terms: Terms) -> (r: Result<
    (Option<StatementKind>, usize),
    BashError,
>)
    requires
        start <= tokens.len(),
    ensures
        match pipe_from(tokens_view(tokens@), start as int, terms, Seq::empty(), Seq::empty(), Seq::empty(), false) {
            Ok((k, p)) => r matches Ok((x, q)) && opt_kind_view(x) == k && q == p,
            Err(e) => parse_err(r, e),
        },
        match r {
            Ok((k, q)) => start <= q <= tokens.len() && (k is Some ==> start < q),
            Err(_) => true,
        },
{
    let ghost t = tokens_view(tokens@);
    let mut commands: Vec<CommandInvocation> = Vec::new();
    let mut words: Vec<Word> = Vec::new();
    let mut redirects: Vec<Redirect> = Vec::new();
    let mut pending_pipe = false;
    let mut pos = start;
    proof {
        assert(commands_view(commands@) =~= Seq::<CommandV>::empty());
        assert(words_view(words@) =~= Seq::<Seq<PartV>>::empty());
        assert(redirects_view(redirects@) =~= Seq::<RedirectV>::empty());
    }
    while pos < tokens.len()
        invariant
            start <= pos <= tokens.len(),
            commands@.len() > 0 || words@.len() > 0 || redirects@.len() > 0 ==> start < pos,
            t == tokens_view(tokens@),
            pipe_from(t, start as int, terms, Seq::empty(), Seq::empty(), Seq::empty(), false) == pipe_from(
                t,
                pos as int,
                terms,
                commands_view(commands@),
                words_view(words@),
                redirects_view(redirects@),
                pending_pipe,
            ),
        ensures
            start <= pos <= tokens.len(),
            commands@.len() > 0 || words@.len() > 0 || redirects@.len() > 0 ==> start < pos,
            pipe_from(t, start as int, terms, Seq::empty(), Seq::empty(), Seq::empty(), false) == pipe_end(
                commands_view(commands@),
                words_view(words@),
                redirects_view(redirects@),
                pending_pipe,
                pos as int,
            ),
        decreases tokens.len() - pos,
    {
        assert(t[pos as int] == tokens@[pos as int]@);
        match &tokens[pos] {
            Token::Word(w) => {
                if is_keyword_at_exec(tokens, pos, terms) {
                    break;
                }
                let ghost wb = words_view(words@);
                words.push(copy_word(w));
                assert(words_view(words@) =~= wb.push(w@));
                pending_pipe = false;
                pos += 1;
            },
            Token::RedirectRead | Token::RedirectWrite | Token::RedirectAppend => {
                let mode = match &tokens[pos] {
                    Token::RedirectRead => RedirectMode::Read,
                    Token::RedirectWrite => RedirectMode::Write,
                    _ => RedirectMode::Append,
                };
                if pos + 1 < tokens.len() {
                    assert(t[pos + 1] == tokens@[pos + 1]@);
                    match &tokens[pos + 1] {
                        Token::Word(target) => {
                            let ghost rb = redirects_view(redirects@);
                            let rd = Redirect { mode, target: copy_word(target) };
                            let ghost rv = rd@;
                            redirects.push(rd);
                            assert(redirects_view(redirects@) =~= rb.push(rv));
                            pending_pipe = false;
                            pos += 2;
                        },
                        _ => {
                            return Err(near_error("newline"));
                        },
                    }
                } else {
                    return Err(near_error("newline"));
                }
            },
            Token::Pipe => {
                if words.len() == 0 && redirects.len() == 0 && commands.len() == 0 {
                    // Skip leading pipe; continue parsing the next command
                    pos += 1;
                } else if words.len() == 0 && redirects.len() == 0 {
                    return Err(near_error("|"));
                } else {
                    push_command_to(&mut commands, &mut words, &mut redirects);
                    proof {
                        assert(words_view(words@) =~= Seq::<Seq<PartV>>::empty());
                        assert(redirects_view(redirects@) =~= Seq::<RedirectV>::empty());
                    }
                    pending_pipe = true;
                    pos += 1;
                }
            },
            _ => {
                if pending_pipe {
                    let tok = match &tokens[pos] {
                        Token::AndIf => "&&",
                        Token::OrIf => "||",
                        _ => "newline",
                    };
                    return Err(near_error(tok));
                }
                break;
            },
        }
    }
    if pending_pipe {
        return Err(near_error("newline"));
    }
    push_command_to(&mut commands, &mut words, &mut redirects);
    if commands.len() == 0 {
        Ok((None, pos))
    } else {
        let ghost cv = commands_view(commands@);
        let k = StatementKind::Pipeline(commands);
        assert(kind_view(&k) == KindV::Pipeline(cv));
        Ok((Some(k), pos))
    }
}

}

verus! {

pub open spec fn if_view(f: &IfStatement) -> IfV {
    IfV {
        condition: stmts_view(&f.condition),
        body: stmts_view(&f.body),
        elifs: elifs_view(&f.elif_clauses),
        else_body: match &f.else_body {
            Some(b) => Some(stmts_view(b)),
            None => None,
        },
    }
}

pub open spec fn while_view(w: &WhileStatement) -> WhileV {
    WhileV { condition: stmts_view(&w.condition), body: stmts_view(&w.body) }
}

pub open spec fn for_view(f: &ForStatement) -> ForV {
    ForV { var: f.var@, items: words_view(f.items@), body: stmts_view(&f.body) }
}

proof fn lemma_push_stmt(v: Vec<Statement>, s: Statement, w: Vec<Statement>)
    requires
        w@ == v@.push(s),
    ensures
        stmts_view(&w) == stmts_view(&v).push(stmt_view(&s)),
{
    assert(stmts_view(&w) =~= stmts_view(&v).push(stmt_view(&s)));
}

fn connector_error(c: PipelineConnector) -> (e: BashError)
    requires
        c != PipelineConnector::Always,
    ensures
        e matches BashError::Parse(m) && m@ == connector_msg(c),
{
    if c == PipelineConnector::And {
        near_error("&&")
    } else {
        near_error("||")
    }
}

/// Parse a flat list of statements, stopping when a terminator keyword is seen
/// (without consuming it) or the token stream ends.
fn parse_statements(tokens: &[Token], start: usize, terms: Terms) -> (r: Result<
    (Vec<Statement>, usize),
    BashError,
>)
    requires
        start <= tokens.len(),
    ensures
        match stmts_spec(tokens_view(tokens@), start as int, terms) {
            Ok((v, p)) => r matches Ok((x, q)) && stmts_view(&x) == v && q == p,
            Err(e) => parse_err(r, e),
        },
        match r {
            Ok((_, q)) => start <= q <= tokens.len(),
            Err(_) => true,
        },
    decreases tokens.len() - start, 3int,
{
    let ghost t = tokens_view(tokens@);
    let mut statements: Vec<Statement> = Vec::new();
    let mut connector = PipelineConnector::Always;
    let mut pos = start;
    assert(stmts_view(&statements) =~= Seq::<StmtV>::empty());
    loop
        invariant
            start <= pos <= tokens.len(),
            t == tokens_view(tokens@),
            stmts_spec(t, start as int, terms) == stmts_loop(
                t,
                pos as int,
                terms,
                stmts_view(&statements),
                connector,
            ),
        decreases tokens.len() - pos,
    {
        let p = skip_separators(tokens, pos);
        if p >= tokens.len() || is_keyword_at_exec(tokens, p, terms) {
            if connector != PipelineConnector::Always && p >= tokens.len() {
                return Err(connector_error(connector));
            }
            return Ok((statements, p));
        }
        match parse_single_statement(tokens, p, terms) {
            Err(e) => {
                return Err(e);
            },
            Ok((None, p2)) => {
                // If we couldn't parse a statement but have a pending connector, error
                if connector != PipelineConnector::Always {
                    return Err(connector_error(connector));
                }
                return Ok((statements, p2));
            },
            Ok((Some(kind), p2)) => {
                let ghost before = statements;
                let st = Statement { connector, kind };
                let ghost sv = stmt_view(&st);
                statements.push(st);
                proof {
                    lemma_push_stmt(before, st, statements);
                }
                // The token right after a statement determines the next connector.
                if p2 < tokens.len() && matches!(tokens[p2], Token::AndIf) {
                    assert(t[p2 as int] == tokens@[p2 as int]@);
                    connector = PipelineConnector::And;
                    pos = p2 + 1;
                } else if p2 < tokens.len() && matches!(tokens[p2], Token::OrIf) {
                    assert(t[p2 as int] == tokens@[p2 as int]@);
                    connector = PipelineConnector::Or;
                    pos = p2 + 1;
                } else {
                    if p2 < tokens.len() {
                        assert(t[p2 as int] == tokens@[p2 as int]@);
                    }
                    connector = PipelineConnector::Always;
                    pos = p2;
                }
            },
        }
    }
}

/// Parse one statement: a control-flow keyword compound or a pipeline.
/// Stops (without consuming) at &&, ||, ;, \n, or a terminator keyword.
fn parse_single_statement(tokens: &[Token], start: usize, terms: Terms) -> (r: Result<
    (Option<StatementKind>, usize),
    BashError,
>)
    requires
        start <= tokens.len(),
    ensures
        match single_spec(tokens_view(tokens@), start as int, terms) {
            Ok((k, p)) => r matches Ok((x, q)) && opt_kind_view(x) == k && q == p,
            Err(e) => parse_err(r, e),
        },
        match r {
            Ok((k, q)) => start <= q <= tokens.len() && (k is Some ==> skip_seps(
                tokens_view(tokens@),
                start as int,
            ) < q),
            Err(_) => true,
        },
    decreases tokens.len() - start, 1int,
{
    let p = skip_separators(tokens, start);
    if p >= tokens.len() {
        return Ok((None, p));
    }
    if is_keyword_at_exec(tokens, p, terms) {
        return Ok((None, p));
    }
    if is_word_at_exec(tokens, p, "if") {
        match parse_if(tokens, p + 1) {
            Err(e) => Err(e),
            Ok((f, q)) => {
                let k = StatementKind::If(f);
                assert(kind_view(&k) == KindV::If(if_view(&f)));
                Ok((Some(k), q))
            },
        }
    } else if is_word_at_exec(tokens, p, "while") {
        match parse_while(tokens, p + 1) {
            Err(e) => Err(e),
            Ok((w, q)) => {
                let k = StatementKind::While(w);
                assert(kind_view(&k) == KindV::While(while_view(&w)));
                Ok((Some(k), q))
            },
        }
    } else if is_word_at_exec(tokens, p, "for") {
        match parse_for(tokens, p + 1) {
            Err(e) => Err(e),
            Ok((f, q)) => {
                let k = StatementKind::For(f);
                assert(kind_view(&k) == KindV::For(for_view(&f)));
                Ok((Some(k), q))
            },
        }
    } else {
        parse_pipeline_statement(tokens, p, terms)
    }
}

proof fn lemma_push_elif(v: Vec<(Vec<Statement>, Vec<Statement>)>, c: (Vec<Statement>, Vec<Statement>), w: Vec<(Vec<Statement>, Vec<Statement>)>)
    requires
        w@ == v@.push(c),
    ensures
        elifs_view(&w) == elifs_view(&v).push((stmts_view(&c.0), stmts_view(&c.1))),
{
    assert(elifs_view(&w) =~= elifs_view(&v).push((stmts_view(&c.0), stmts_view(&c.1))));
}

fn parse_if(tokens: &[Token], start: usize) -> (r: Result<(IfStatement, usize), BashError>)
    requires
        start <= tokens.len(),
    ensures
        match if_spec(tokens_view(tokens@), start as int) {
            Ok((v, p)) => r matches Ok((x, q)) && if_view(&x) == v && q == p,
            Err(e) => parse_err(r, e),
        },
        match r {
            Ok((_, q)) => start <= q <= tokens.len(),
            Err(_) => true,
        },
    decreases tokens.len() - start, 10int,
{
    let ghost t = tokens_view(tokens@);
    let (condition, p1) = match parse_statements(tokens, start, Terms::Then) {
        Ok(x) => x,
        Err(e) => return Err(e),
    };
    let p2 = match expect_keyword(tokens, p1, "then") {
        Ok(x) => x,
        Err(e) => return Err(e),
    };
    let (body, p3) = match parse_statements(tokens, p2, Terms::ElifElseFi) {
        Ok(x) => x,
        Err(e) => return Err(e),
    };
    let mut elif_clauses: Vec<(Vec<Statement>, Vec<Statement>)> = Vec::new();
    let mut pos = p3;
    assert(elifs_view(&elif_clauses) =~= Seq::<(Seq<StmtV>, Seq<StmtV>)>::empty());
    assert(if_spec(t, start as int) == if_then(t, start as int, stmts_view(&condition), p1 as int));
    assert(if_then(t, start as int, stmts_view(&condition), p1 as int) == if_elifs(
        t,
        start as int,
        stmts_view(&condition),
        stmts_view(&body),
        p3 as int,
    ));
    loop
        invariant_except_break
            elifs_spec(t, p3 as int, Seq::empty()) == elifs_spec(t, pos as int, elifs_view(&elif_clauses)),
        invariant
            start <= p3 <= pos <= tokens.len(),
            t == tokens_view(tokens@),
            if_spec(t, start as int) == if_elifs(
                t,
                start as int,
                stmts_view(&condition),
                stmts_view(&body),
                p3 as int,
            ),
        ensures
            start <= p3 <= pos <= tokens.len(),
            elifs_spec(t, p3 as int, Seq::empty()) == Ok::<(Seq<(Seq<StmtV>, Seq<StmtV>)>, int), Seq<char>>(
                (elifs_view(&elif_clauses), pos as int),
            ),
        decreases tokens.len() - pos,
    {
        let q = skip_separators(tokens, pos);
        if !is_word_at_exec(tokens, q, "elif") {
            pos = q;
            break;
        }
        // consume "elif"
        let (elif_cond, q1) = match parse_statements(tokens, q + 1, Terms::Then) {
            Ok(x) => x,
            Err(e) => return Err(e),
        };
        assert(elifs_spec(t, pos as int, elifs_view(&elif_clauses)) == elif_then(
            t,
            pos as int,
            elifs_view(&elif_clauses),
            stmts_view(&elif_cond),
            q1 as int,
        ));
        let q2 = match expect_keyword(tokens, q1, "then") {
            Ok(x) => x,
            Err(e) => return Err(e),
        };
        let (elif_body, q3) = match parse_statements(tokens, q2, Terms::ElifElseFi) {
            Ok(x) => x,
            Err(e) => return Err(e),
        };
        let ghost before = elif_clauses;
        let clause = (elif_cond, elif_body);
        let ghost cv = clause;
        elif_clauses.push(clause);
        proof {
            lemma_push_elif(before, cv, elif_clauses);
        }
        pos = q3;
    }
    let p5 = skip_separators(tokens, pos);
    let (else_body, p6) = if is_word_at_exec(tokens, p5, "else") {
        // consume "else"
        match parse_statements(tokens, p5 + 1, Terms::Fi) {
            Ok((b, q)) => (Some(b), q),
            Err(e) => return Err(e),
        }
    } else {
        (None, p5)
    };
    let p7 = match expect_keyword(tokens, p6, "fi") {
        Ok(x) => x,
        Err(e) => return Err(e),
    };
    Ok((IfStatement { condition, body, elif_clauses, else_body }, p7))
}

fn parse_while(tokens: &[Token], start: usize) -> (r: Result<(WhileStatement, usize), BashError>)
    requires
        start <= tokens.len(),
    ensures
        match while_spec(tokens_view(tokens@), start as int) {
            Ok((v, p)) => r matches Ok((x, q)) && while_view(&x) == v && q == p,
            Err(e) => parse_err(r, e),
        },
        match r {
            Ok((_, q)) => start <= q <= tokens.len(),
            Err(_) => true,
        },
    decreases tokens.len() - start, 10int,
{
    let (condition, p1) = match parse_statements(tokens, start, Terms::Do) {
        Ok(x) => x,
        Err(e) => return Err(e),
    };
    let p2 = match expect_keyword(tokens, p1, "do") {
        Ok(x) => x,
        Err(e) => return Err(e),
    };
    let (body, p3) = match parse_statements(tokens, p2, Terms::Done) {
        Ok(x) => x,
        Err(e) => return Err(e),
    };
    let p4 = match expect_keyword(tokens, p3, "done") {
        Ok(x) => x,
        Err(e) => return Err(e),
    };
    Ok((WhileStatement { condition, body }, p4))
}

fn parse_for(tokens: &[Token], start: usize) -> (r: Result<(ForStatement, usize), BashError>)
    requires
        start <= tokens.len(),
    ensures
        match for_spec(tokens_view(tokens@), start as int) {
            Ok((v, p)) => r matches Ok((x, q)) && for_view(&x) == v && q == p,
            Err(e) => parse_err(r, e),
        },
        match r {
            Ok((_, q)) => start <= q <= tokens.len(),
            Err(_) => true,
        },
    decreases tokens.len() - start, 10int,
{
    let ghost t = tokens_view(tokens@);
    let p = skip_separators(tokens, start);
    let var = if p < tokens.len() {
        assert(t[p as int] == tokens@[p as int]@);
        match &tokens[p] {
            Token::Word(w) => w.text(),
            _ => {
                return Err(parse_error("syntax error: expected variable name after 'for'"));
            },
        }
    } else {
        return Err(parse_error("syntax error: expected variable name after 'for'"));
    };
    let p2 = skip_separators(tokens, p + 1);
    // expect "in"
    if !is_word_at_exec(tokens, p2, "in") {
        return Err(parse_error("syntax error: expected 'in' after for variable"));
    }
    // collect items until separator or "do"
    let mut items: Vec<Word> = Vec::new();
    let mut pos = p2 + 1;
    assert(words_view(items@) =~= Seq::<Seq<PartV>>::empty());
    while pos < tokens.len()
        invariant_except_break
            for_items(t, p2 + 1, Seq::empty()) == for_items(t, pos as int, words_view(items@)),
        invariant
            p2 + 1 <= pos <= tokens.len(),
            t == tokens_view(tokens@),
        ensures
            p2 + 1 <= pos <= tokens.len(),
            for_items(t, p2 + 1, Seq::empty()) == (words_view(items@), pos as int),
        decreases tokens.len() - pos,
    {
        assert(t[pos as int] == tokens@[pos as int]@);
        match &tokens[pos] {
            Token::Word(w) => {
                if word_is(w, "do") {
                    break;
                }
                let ghost before = words_view(items@);
                items.push(copy_word(w));
                assert(words_view(items@) =~= before.push(w@));
                pos += 1;
            },
            Token::Separator => {
                pos += 1;
                break;
            },
            _ => {
                break;
            },
        }
    }
    // expect "do" (possibly after separator)
    let p5 = skip_separators(tokens, pos);
    if !is_word_at_exec(tokens, p5, "do") {
        return Err(parse_error("syntax error: expected 'do' in for loop"));
    }
    let (body, p6) = match parse_statements(tokens, p5 + 1, Terms::Done) {
        Ok(x) => x,
        Err(e) => return Err(e),
    };
    let p7 = match expect_keyword(tokens, p6, "done") {
        Ok(x) => x,
        Err(e) => return Err(e),
    };
    Ok((ForStatement { var, items, body }, p7))
}

/// The statements of `source`, with at most 50 nested command substitutions.
pub fn parse_script(source: &str) -> (r: Result<Script, BashError>)
    ensures
        match script_spec(source@, ParseLimits { max_command_substitution_depth: 50 }) {
            Ok(v) => r matches Ok(s) && stmts_view(&s.statements) == v,
            Err(e) => parse_err(r, e),
        },
{
    parse_script_with_limits(source, ParseLimits::default())
}

/// The statements of `source`; the whole input must form statements.
pub fn parse_script_with_limits(source: &str, limits: ParseLimits) -> (r: Result<Script, BashError>)
    ensures
        match script_spec(source@, limits) {
            Ok(v) => r matches Ok(s) && stmts_view(&s.statements) == v,
            Err(e) => parse_err(r, e),
        },
{
    let chars = to_chars(source);
    let tokens = match lex(&chars, limits.max_command_substitution_depth) {
        Ok(t) => t,
        Err(e) => return Err(e),
    };
    let ghost t = tokens_view(tokens@);
    let (statements, pos) = match parse_statements(&tokens, 0, Terms::Nothing) {
        Ok(x) => x,
        Err(e) => return Err(e),
    };
    if pos < tokens.len() {
        assert(t[pos as int] == tokens@[pos as int]@);
        if let Token::Word(w) = &tokens[pos] {
            let text = w.text();
            return Err(near_error(text.as_str()));
        }
        return Err(parse_error("syntax error near unexpected token"));
    }
    Ok(Script { statements })
}

}

verus! {

// ─── What a parse gives ─────────────────────────────────────────────────────

/// A command has a word or a redirection.
pub open spec fn command_ok(c: CommandV) -> bool {
    c.words.len() > 0 || c.redirects.len() > 0
}

/// No empty pipeline or command anywhere in a statement kind.
pub open spec fn kind_ok(k: KindV) -> bool
    decreases k,
{
    match k {
        KindV::Pipeline(cmds) => cmds.len() > 0 && forall|i: int| 0 <= i < cmds.len() ==> command_ok(#[trigger] cmds[i]),
        KindV::If(f) => {
            &&& stmts_ok(f.condition)
            &&& stmts_ok(f.body)
            &&& forall|i: int| 0 <= i < f.elifs.len() ==> stmts_ok((#[trigger] f.elifs[i]).0) && stmts_ok(f.elifs[i].1)
            &&& match f.else_body {
                Some(b) => stmts_ok(b),
                None => true,
            }
        },
        KindV::While(w) => stmts_ok(w.condition) && stmts_ok(w.body),
        KindV::For(f) => stmts_ok(f.body),
    }
}

pub open spec fn stmts_ok(s: Seq<StmtV>) -> bool
    decreases s,
{
    forall|i: int| 0 <= i < s.len() ==> kind_ok(#[trigger] s[i].kind)
}

}

verus! {

spec fn elifs_ok(e: Seq<(Seq<StmtV>, Seq<StmtV>)>) -> bool {
    forall|i: int| 0 <= i < e.len() ==> stmts_ok((#[trigger] e[i]).0) && stmts_ok(e[i].1)
}

spec fn commands_ok(cmds: Seq<CommandV>) -> bool {
    forall|i: int| 0 <= i < cmds.len() ==> command_ok(#[trigger] cmds[i])
}

spec fn kind_result_ok(r: Result<(Option<KindV>, int), Seq<char>>) -> bool {
    r matches Ok((Some(k), _)) ==> kind_ok(k)
}

spec fn stmts_result_ok(r: Result<(Seq<StmtV>, int), Seq<char>>) -> bool {
    r matches Ok((s, _)) ==> stmts_ok(s)
}

proof fn lemma_pipe_end_ok(cmds: Seq<CommandV>, words: Seq<Seq<PartV>>, redirs: Seq<RedirectV>, pending: bool, pos: int)
    requires
        commands_ok(cmds),
    ensures
        kind_result_ok(pipe_end(cmds, words, redirs, pending, pos)),
{
    let all = push_command(cmds, words, redirs);
    assert(commands_ok(all));
}

proof fn lemma_pipe_ok(
    t: Seq<TokenV>,
    pos: int,
    terms: Terms,
    cmds: Seq<CommandV>,
    words: Seq<Seq<PartV>>,
    redirs: Seq<RedirectV>,
    pending: bool,
)
    requires
        commands_ok(cmds),
    ensures
        kind_result_ok(pipe_from(t, pos, terms, cmds, words, redirs, pending)),
    decreases t.len() - pos,
{
    if pos < 0 || pos >= t.len() {
        lemma_pipe_end_ok(cmds, words, redirs, pending, pos);
    } else {
        match t[pos] {
            TokenV::Word(w) => if is_keyword_at(t, pos, terms) {
                lemma_pipe_end_ok(cmds, words, redirs, pending, pos);
            } else {
                lemma_pipe_ok(t, pos + 1, terms, cmds, words.push(w), redirs, false);
            },
            TokenV::RedirectRead | TokenV::RedirectWrite | TokenV::RedirectAppend => {
                let mode = if t[pos] is RedirectRead {
                    RedirectMode::Read
                } else if t[pos] is RedirectWrite {
                    RedirectMode::Write
                } else {
                    RedirectMode::Append
                };
                if pos + 1 < t.len() && t[pos + 1] is Word {
                    lemma_pipe_ok(
                        t,
                        pos + 2,
                        terms,
                        cmds,
                        words,
                        redirs.push(RedirectV { mode: mode, target: t[pos + 1]->Word_0 }),
                        false,
                    );
                }
            },
            TokenV::Pipe => if words.len() == 0 && redirs.len() == 0 && cmds.len() == 0 {
                lemma_pipe_ok(t, pos + 1, terms, cmds, words, redirs, pending);
            } else if words.len() == 0 && redirs.len() == 0 {
            } else {
                let c2 = push_command(cmds, words, redirs);
                assert(commands_ok(c2));
                lemma_pipe_ok(t, pos + 1, terms, c2, Seq::empty(), Seq::empty(), true);
            },
            _ => if !pending {
                lemma_pipe_end_ok(cmds, words, redirs, pending, pos);
            },
        }
    }
}

proof fn lemma_stmts_ok(t: Seq<TokenV>, pos: int, terms: Terms)
    ensures
        stmts_result_ok(stmts_spec(t, pos, terms)),
    decreases t.len() - pos, 3int,
{
    if 0 <= pos <= t.len() {
        assert(stmts_ok(Seq::<StmtV>::empty()));
        lemma_loop_ok(t, pos, terms, Seq::empty(), PipelineConnector::Always);
    }
}

proof fn lemma_loop_ok(t: Seq<TokenV>, pos: int, terms: Terms, acc: Seq<StmtV>, conn: PipelineConnector)
    requires
        stmts_ok(acc),
    ensures
        stmts_result_ok(stmts_loop(t, pos, terms, acc, conn)),
    decreases t.len() - pos, 2int,
{
    if 0 <= pos <= t.len() {
        let p = skip_seps(t, pos);
        if in_range(t, pos, p) && !(p >= t.len() || is_keyword_at(t, p, terms)) {
            lemma_single_ok(t, p, terms);
            match single_spec(t, p, terms) {
                Ok((Some(kind), p2)) => if in_range(t, p + 1, p2) {
                    let acc2 = acc.push(StmtV { connector: conn, kind: kind });
                    assert(stmts_ok(acc2)) by {
                        assert forall|i: int| 0 <= i < acc2.len() implies kind_ok(#[trigger] acc2[i].kind) by {
                            if i < acc.len() {
                                assert(acc2[i] == acc[i]);
                            }
                        }
                    }
                    if p2 < t.len() && t[p2] is AndIf {
                        lemma_loop_ok(t, p2 + 1, terms, acc2, PipelineConnector::And);
                    } else if p2 < t.len() && t[p2] is OrIf {
                        lemma_loop_ok(t, p2 + 1, terms, acc2, PipelineConnector::Or);
                    } else {
                        lemma_loop_ok(t, p2, terms, acc2, PipelineConnector::Always);
                    }
                },
                _ => {},
            }
        }
    }
}

proof fn lemma_single_ok(t: Seq<TokenV>, pos: int, terms: Terms)
    ensures
        kind_result_ok(single_spec(t, pos, terms)),
    decreases t.len() - pos, 1int,
{
    if 0 <= pos <= t.len() {
        let p = skip_seps(t, pos);
        if in_range(t, pos, p) && p < t.len() && !is_keyword_at(t, p, terms) {
            if is_word_at(t, p, "if"@) {
                lemma_if_ok(t, p + 1);
            } else if is_word_at(t, p, "while"@) {
                lemma_while_ok(t, p + 1);
            } else if is_word_at(t, p, "for"@) {
                lemma_for_ok(t, p + 1);
            } else {
                assert(commands_ok(Seq::<CommandV>::empty()));
                lemma_pipe_ok(t, p, terms, Seq::empty(), Seq::empty(), Seq::empty(), false);
            }
        }
    }
}

proof fn lemma_if_ok(t: Seq<TokenV>, pos: int)
    ensures
        if_spec(t, pos) matches Ok((f, _)) ==> kind_ok(KindV::If(f)),
    decreases t.len() - pos, 10int,
{
    if 0 <= pos <= t.len() {
        lemma_stmts_ok(t, pos, Terms::Then);
        match stmts_spec(t, pos, Terms::Then) {
            Ok((cond, p1)) => lemma_if_then_ok(t, pos, cond, p1),
            Err(_) => {},
        }
    }
}

proof fn lemma_if_then_ok(t: Seq<TokenV>, pos: int, cond: Seq<StmtV>, p1: int)
    requires
        stmts_ok(cond),
    ensures
        if_then(t, pos, cond, p1) matches Ok((f, _)) ==> kind_ok(KindV::If(f)),
    decreases t.len() - pos, 9int,
{
    if 0 <= pos <= p1 <= t.len() {
        match expect_spec(t, p1, "then"@) {
            Ok(p2) => if in_range(t, p1, p2) {
                lemma_stmts_ok(t, p2, Terms::ElifElseFi);
                match stmts_spec(t, p2, Terms::ElifElseFi) {
                    Ok((body, p3)) => lemma_if_elifs_ok(t, pos, cond, body, p3),
                    Err(_) => {},
                }
            },
            Err(_) => {},
        }
    }
}

proof fn lemma_if_elifs_ok(t: Seq<TokenV>, pos: int, cond: Seq<StmtV>, body: Seq<StmtV>, p3: int)
    requires
        stmts_ok(cond),
        stmts_ok(body),
    ensures
        if_elifs(t, pos, cond, body, p3) matches Ok((f, _)) ==> kind_ok(KindV::If(f)),
    decreases t.len() - pos, 8int,
{
    if 0 <= pos <= p3 <= t.len() {
        assert(elifs_ok(Seq::<(Seq<StmtV>, Seq<StmtV>)>::empty()));
        lemma_elifs_ok(t, p3, Seq::empty());
        match elifs_spec(t, p3, Seq::empty()) {
            Ok((elifs, p4)) => lemma_if_else_ok(t, pos, cond, body, elifs, p4),
            Err(_) => {},
        }
    }
}

proof fn lemma_if_else_ok(
    t: Seq<TokenV>,
    pos: int,
    cond: Seq<StmtV>,
    body: Seq<StmtV>,
    elifs: Seq<(Seq<StmtV>, Seq<StmtV>)>,
    p4: int,
)
    requires
        stmts_ok(cond),
        stmts_ok(body),
        elifs_ok(elifs),
    ensures
        if_else(t, pos, cond, body, elifs, p4) matches Ok((f, _)) ==> kind_ok(KindV::If(f)),
    decreases t.len() - pos, 7int,
{
    if 0 <= pos <= p4 <= t.len() {
        let p5 = skip_seps(t, p4);
        if in_range(t, p4, p5) && is_word_at(t, p5, "else"@) {
            lemma_stmts_ok(t, p5 + 1, Terms::Fi);
        }
    }
}

proof fn lemma_elifs_ok(t: Seq<TokenV>, pos: int, acc: Seq<(Seq<StmtV>, Seq<StmtV>)>)
    requires
        elifs_ok(acc),
    ensures
        elifs_spec(t, pos, acc) matches Ok((e, _)) ==> elifs_ok(e),
    decreases t.len() - pos, 6int,
{
    if 0 <= pos <= t.len() {
        let p = skip_seps(t, pos);
        if in_range(t, pos, p) && is_word_at(t, p, "elif"@) {
            lemma_stmts_ok(t, p + 1, Terms::Then);
            match stmts_spec(t, p + 1, Terms::Then) {
                Ok((c, p1)) => lemma_elif_then_ok(t, pos, acc, c, p1),
                Err(_) => {},
            }
        }
    }
}

proof fn lemma_elif_then_ok(t: Seq<TokenV>, pos: int, acc: Seq<(Seq<StmtV>, Seq<StmtV>)>, c: Seq<StmtV>, p1: int)
    requires
        elifs_ok(acc),
        stmts_ok(c),
    ensures
        elif_then(t, pos, acc, c, p1) matches Ok((e, _)) ==> elifs_ok(e),
    decreases t.len() - pos, 5int,
{
    if 0 <= pos < p1 <= t.len() {
        match expect_spec(t, p1, "then"@) {
            Ok(p2) => if in_range(t, p1, p2) {
                lemma_stmts_ok(t, p2, Terms::ElifElseFi);
                match stmts_spec(t, p2, Terms::ElifElseFi) {
                    Ok((b, p3)) => if in_range(t, p2, p3) {
                        let acc2 = acc.push((c, b));
                        assert(elifs_ok(acc2)) by {
                            assert forall|i: int| 0 <= i < acc2.len() implies stmts_ok((#[trigger] acc2[i]).0)
                                && stmts_ok(acc2[i].1) by {
                                if i < acc.len() {
                                    assert(acc2[i] == acc[i]);
                                }
                            }
                        }
                        lemma_elifs_ok(t, p3, acc2);
                    },
                    Err(_) => {},
                }
            },
            Err(_) => {},
        }
    }
}

proof fn lemma_while_ok(t: Seq<TokenV>, pos: int)
    ensures
        while_spec(t, pos) matches Ok((w, _)) ==> kind_ok(KindV::While(w)),
    decreases t.len() - pos, 10int,
{
    if 0 <= pos <= t.len() {
        lemma_stmts_ok(t, pos, Terms::Do);
        match stmts_spec(t, pos, Terms::Do) {
            Ok((cond, p1)) => if 0 <= pos <= p1 <= t.len() {
                match expect_spec(t, p1, "do"@) {
                    Ok(p2) => if in_range(t, p1, p2) {
                        lemma_stmts_ok(t, p2, Terms::Done);
                    },
                    Err(_) => {},
                }
            },
            Err(_) => {},
        }
    }
}

proof fn lemma_for_ok(t: Seq<TokenV>, pos: int)
    ensures
        for_spec(t, pos) matches Ok((f, _)) ==> kind_ok(KindV::For(f)),
    decreases t.len() - pos, 10int,
{
    if 0 <= pos <= t.len() {
        let p = skip_seps(t, pos);
        if 0 <= p < t.len() && t[p] is Word {
            let p2 = skip_seps(t, p + 1);
            if is_word_at(t, p2, "in"@) {
                let (items, p4) = for_items(t, p2 + 1, Seq::empty());
                let p5 = skip_seps(t, p4);
                if is_word_at(t, p5, "do"@) && in_range(t, pos, p5 + 1) {
                    lemma_stmts_ok(t, p5 + 1, Terms::Done);
                }
            }
        }
    }
}

/// Raising the nesting limit never turns a parsed script into an error, nor
/// changes what it parses to.
pub proof fn law_parse_limit_monotone(src: Seq<char>, d1: usize, d2: usize)
    requires
        d1 <= d2,
        script_spec(src, ParseLimits { max_command_substitution_depth: d1 }) is Ok,
    ensures
        script_spec(src, ParseLimits { max_command_substitution_depth: d2 }) == script_spec(
            src,
            ParseLimits { max_command_substitution_depth: d1 },
        ),
{
    lemma_lex_mono(src, 0, initial_lex_state(), d1, d2);
}

/// A script that parses holds no empty pipeline and no empty command, at any
/// depth: every command has a word or a redirection.
pub proof fn law_parsed_commands_nonempty(src: Seq<char>, limits: ParseLimits)
    ensures
        script_spec(src, limits) matches Ok(s) ==> stmts_ok(s),
{
    match lex_spec(src, limits.max_command_substitution_depth) {
        Ok(t) => lemma_stmts_ok(t, 0, Terms::Nothing),
        Err(_) => {},
    }
}

}
