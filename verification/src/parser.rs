use vstd::prelude::*;
use crate::lexer::{SpecToken, Token, tokens_view};

verus! {

/// A command: its name and its arguments, as in `echo hello`.
#[derive(Debug)]
pub struct Command {
    pub name: String,
    pub args: Vec<String>,
}

/// The mathematical value of a [`Command`].
pub struct SpecCommand {
    pub name: Seq<char>,
    pub args: Seq<Seq<char>>,
}

/// The values of a sequence of strings.
pub open spec fn strings_view(ss: Seq<String>) -> Seq<Seq<char>> {
    ss.map_values(|s: String| s@)
}

impl View for Command {
    type V = SpecCommand;

    open spec fn view(&self) -> SpecCommand {
        SpecCommand { name: self.name@, args: strings_view(self.args@) }
    }
}

impl Clone for Command {
    fn clone(&self) -> (r: Command)
        ensures
            r@ == self@,
    {
        let r = Command { name: self.name.clone(), args: self.args.clone() };
        assert(strings_view(r.args@) =~= strings_view(self.args@));
        r
    }
}

/// A pipeline: a single command, or the output of the left one piped into
/// the right one.
#[derive(Debug)]
pub enum AST {
    Command(Command),
    Pipe(Box<AST>, Box<AST>),
}

/// The mathematical value of an [`AST`].
pub enum SpecAst {
    Command(SpecCommand),
    Pipe(Box<SpecAst>, Box<SpecAst>),
}

/// The value of `a`.
pub open spec fn ast_view(a: AST) -> SpecAst
    decreases a,
{
    match a {
        AST::Command(c) => SpecAst::Command(c@),
        AST::Pipe(l, r) => SpecAst::Pipe(Box::new(ast_view(*l)), Box::new(ast_view(*r))),
    }
}

impl Clone for AST {
    fn clone(&self) -> (r: AST)
        ensures
            r@ == self@,
        decreases self,
    {
        match self {
            AST::Command(c) => AST::Command(c.clone()),
            AST::Pipe(l, r) => AST::Pipe(Box::new((**l).clone()), Box::new((**r).clone())),
        }
    }
}

impl View for AST {
    type V = SpecAst;

    open spec fn view(&self) -> SpecAst {
        ast_view(*self)
    }
}

/// A parser over a sequence of tokens, with the position of the next token
/// to read.
#[derive(Debug, Clone)]
pub struct Parser {
    pub tokens: Vec<Token>,
    position: usize,
}

/// The mathematical value of a [`Parser`].
pub struct ParserModel {
    pub tokens: Seq<SpecToken>,
    pub position: nat,
}

impl View for Parser {
    type V = ParserModel;

    closed spec fn view(&self) -> ParserModel {
        ParserModel { tokens: tokens_view(self.tokens@), position: self.position as nat }
    }
}

/// The words of `t` from `p` on, up to the first token that is not a word.
pub open spec fn words_from(t: Seq<SpecToken>, p: nat) -> Seq<Seq<char>>
    decreases t.len() - p,
{
    if p < t.len() {
        match t[p as int] {
            SpecToken::Word(w) => seq![w] + words_from(t, p + 1),
            _ => seq![],
        }
    } else {
        seq![]
    }
}

/// The position of the first token from `p` on that is not a word, or the
/// end of `t`.
pub open spec fn words_end(t: Seq<SpecToken>, p: nat) -> nat
    decreases t.len() - p,
{
    if p < t.len() && t[p as int] is Word {
        words_end(t, p + 1)
    } else {
        p
    }
}

/// The command at position `p` of `t` and the position after it: a word
/// for its name and the words that follow for its arguments; `None` where
/// there is no word at `p`.
pub open spec fn parse_command(t: Seq<SpecToken>, p: nat) -> Option<(SpecCommand, nat)> {
    if p < t.len() {
        match t[p as int] {
            SpecToken::Word(name) => Some(
                (SpecCommand { name, args: words_from(t, p + 1) }, words_end(t, p + 1)),
            ),
            _ => None,
        }
    } else {
        None
    }
}

pub proof fn lemma_words_end_bounds(t: Seq<SpecToken>, p: nat)
    ensures
        p <= words_end(t, p),
        p <= t.len() ==> words_end(t, p) <= t.len(),
    decreases t.len() - p,
{
    if p < t.len() && t[p as int] is Word {
        lemma_words_end_bounds(t, p + 1);
    }
}

/// The pipeline that continues `left` at position `q` of `t`: while a `|`
/// follows, the command after it is piped from what was built so far.
/// `None` where a `|` is not followed by a command.
pub open spec fn pipe_rest(t: Seq<SpecToken>, left: SpecAst, q: nat) -> Option<(SpecAst, nat)>
    decreases t.len() - q,
{
    if q < t.len() && t[q as int] is Pipe {
        match parse_command(t, q + 1) {
            Some((c, r)) => {
                proof {
                    lemma_words_end_bounds(t, q + 2);
                }
                pipe_rest(t, SpecAst::Pipe(Box::new(left), Box::new(SpecAst::Command(c))), r)
            },
            None => None,
        }
    } else {
        Some((left, q))
    }
}

/// The pipeline at position `p` of `t`, nested to the left
/// (`a | b | c` is `Pipe(Pipe(a, b), c)`), and the position after it; it ends
/// at the first token after a command that is not `|`. `None` where a
/// command is missing.
pub open spec fn parse_pipeline(t: Seq<SpecToken>, p: nat) -> Option<(SpecAst, nat)> {
    match parse_command(t, p) {
        Some((c, r)) => pipe_rest(t, SpecAst::Command(c), r),
        None => None,
    }
}

/// A run of words from `q` up to `e`, where the run ends.
spec fn word_run(t: Seq<SpecToken>, q: nat, e: nat) -> bool {
    &&& q <= e <= t.len()
    &&& forall|j: int| q <= j < e ==> #[trigger] t[j] is Word
    &&& e == t.len() || !(t[e as int] is Word)
}

proof fn lemma_word_run(t: Seq<SpecToken>, q: nat, e: nat)
    requires
        word_run(t, q, e),
    ensures
        words_end(t, q) == e,
        words_from(t, q).len() == e - q,
        forall|i: int| 0 <= i < e - q ==> t[q + i] == SpecToken::Word(#[trigger] words_from(t, q)[i]),
    decreases e - q,
{
    if q < e {
        assert(t[q as int] is Word);
        lemma_word_run(t, q + 1, e);
        let w = t[q as int]->Word_0;
        assert(words_from(t, q) == seq![w] + words_from(t, q + 1));
        assert forall|i: int| 0 <= i < e - q implies t[q + i] == SpecToken::Word(
            #[trigger] words_from(t, q)[i],
        ) by {
            if i > 0 {
                assert(words_from(t, q)[i] == words_from(t, q + 1)[i - 1]);
                assert(t[q + i] == t[(q + 1) + (i - 1)]);
            }
        }
    } else {
        assert(words_from(t, q) =~= Seq::<Seq<char>>::empty());
    }
}

/// A command is read from a word `n` and all the words that follow it, up
/// to the first token that is not a word or the end: it is named `n`, its
/// arguments are exactly those words in order, as many as there are, and
/// reading stops after the last of them.
pub proof fn law_command_takes_every_following_word(t: Seq<SpecToken>, p: nat, e: nat)
    requires
        p < e <= t.len(),
        forall|j: int| p <= j < e ==> #[trigger] t[j] is Word,
        e == t.len() || !(t[e as int] is Word),
    ensures
        parse_command(t, p) matches Some((c, r)) && r == e && t[p as int] == SpecToken::Word(c.name)
            && c.args.len() == e - p - 1 && forall|i: int|
            0 <= i < c.args.len() ==> t[p + 1 + i] == SpecToken::Word(#[trigger] c.args[i]),
{
    assert(t[p as int] is Word);
    lemma_word_run(t, p + 1, e);
    let c = parse_command(t, p).unwrap().0;
    assert forall|i: int| 0 <= i < c.args.len() implies t[p + 1 + i] == SpecToken::Word(
        #[trigger] c.args[i],
    ) by {
        assert(c.args[i] == words_from(t, p + 1)[i]);
    }
}

/// A command is read exactly where there is a word.
pub proof fn law_command_needs_a_word(t: Seq<SpecToken>, p: nat)
    ensures
        parse_command(t, p) is Some == (p < t.len() && t[p as int] is Word),
{
}

proof fn lemma_words_end_stops(t: Seq<SpecToken>, q: nat)
    requires
        q <= t.len(),
    ensures
        word_run(t, q, words_end(t, q)),
    decreases t.len() - q,
{
    if q < t.len() && t[q as int] is Word {
        lemma_words_end_stops(t, q + 1);
    }
}

/// From `q` on, `t` holds only words and pipes, and each pipe is followed
/// by a word.
pub open spec fn words_and_pipes(t: Seq<SpecToken>, q: nat) -> bool {
    forall|j: int|
        q <= j < t.len() ==> (#[trigger] t[j] is Word || (t[j] is Pipe && j + 1 < t.len() && t[j
            + 1] is Word))
}

proof fn lemma_pipe_rest_accepts(t: Seq<SpecToken>, left: SpecAst, q: nat)
    requires
        q <= t.len(),
        words_and_pipes(t, q),
        q == t.len() || !(t[q as int] is Word),
    ensures
        pipe_rest(t, left, q) matches Some((_, e)) && e == t.len(),
    decreases t.len() - q,
{
    if q < t.len() {
        assert(t[q as int] is Pipe && q + 1 < t.len() && t[(q + 1) as int] is Word);
        lemma_words_end_bounds(t, q + 2);
        lemma_words_end_stops(t, q + 2);
        let (c, r) = parse_command(t, q + 1).unwrap();
        lemma_pipe_rest_accepts(t, SpecAst::Pipe(Box::new(left), Box::new(SpecAst::Command(c))), r);
    }
}

/// A sequence of tokens that starts with a word, holds only words and
/// pipes, and has a word after each pipe is parsed whole into a pipeline,
/// however many arguments its commands have.
pub proof fn law_pipeline_accepts_words_and_pipes(t: Seq<SpecToken>, p: nat)
    requires
        p < t.len(),
        t[p as int] is Word,
        words_and_pipes(t, p),
    ensures
        parse_pipeline(t, p) matches Some((_, e)) && e == t.len(),
{
    lemma_words_end_bounds(t, p + 1);
    lemma_words_end_stops(t, p + 1);
    let (c, r) = parse_command(t, p).unwrap();
    lemma_pipe_rest_accepts(t, SpecAst::Command(c), r);
}

impl Parser {
    /// A parser at the first of `tokens`.
    pub fn new(tokens: Vec<Token>) -> (r: Self)
        ensures
            r@.tokens == tokens_view(tokens@),
            r@.position == 0,
    {
        Parser { tokens, position: 0 }
    }

    /// The tokens being parsed.
    pub fn tokens(&self) -> (r: &Vec<Token>)
        ensures
            tokens_view(r@) == self@.tokens,
    {
        &self.tokens
    }

    /// Parses the tokens from the current position into a pipeline.
    pub fn parser(&mut self) -> (ast: AST)
        requires
            parse_pipeline(old(self)@.tokens, old(self)@.position) is Some,
        ensures
            final(self)@.tokens == old(self)@.tokens,
            parse_pipeline(old(self)@.tokens, old(self)@.position) == Some((ast@, final(self)@.position)),
    {
        self.parser_pipe()
    }

    /// The token at the current position, if any, without consuming it.
    fn peek(&self) -> (r: Option<&Token>)
        ensures
            r == (if self.position < self.tokens.len() {
                Some(&self.tokens@[self.position as int])
            } else {
                None
            }),
    {
        if self.position < self.tokens.len() {
            Some(&self.tokens[self.position])
        } else {
            None
        }
    }

    /// The token at the current position, if any, consumed.
    fn advance(&mut self) -> (r: Option<Token>)
        ensures
            final(self).tokens == old(self).tokens,
            old(self).position < old(self).tokens.len() ==> r is Some
                && r.unwrap()@ == old(self).tokens@[old(self).position as int]@
                && final(self).position == old(self).position + 1,
            old(self).position >= old(self).tokens.len() ==> r is None && final(self).position
                == old(self).position,
    {
        if self.position < self.tokens.len() {
            let tok = self.tokens[self.position].clone();
            self.position += 1;
            Some(tok)
        } else {
            None
        }
    }

    /// Parses a pipeline: a command, then, while the next token is `|`, the
    /// command after it, piped from what was parsed so far.
    ///
    /// For `[Word("echo"), Word("hello"), Pipe, Word("grep"), Word("h")]` it
    /// gives `Pipe(Command(echo [hello]), Command(grep [h]))`.
    pub fn parser_pipe(&mut self) -> (ast: AST)
        requires
            parse_pipeline(old(self)@.tokens, old(self)@.position) is Some,
        ensures
            final(self)@.tokens == old(self)@.tokens,
            parse_pipeline(old(self)@.tokens, old(self)@.position) == Some((ast@, final(self)@.position)),
    {
        let ghost t = self@.tokens;
        let ghost goal = parse_pipeline(t, self@.position);
        let mut left = self.parser_command();
        loop
            invariant_except_break
                self@.tokens == t,
                pipe_rest(t, left@, self@.position) == goal,
                goal is Some,
            ensures
                self@.tokens == t,
                goal == Some((left@, self@.position)),
            decreases t.len() - self@.position,
        {
            match self.peek() {
                Some(Token::Pipe) => {},
                _ => break,
            }
            let ghost q = self@.position;
            self.advance();
            let right = self.parser_command();
            proof {
                lemma_words_end_bounds(t, q + 2);
            }
            left = AST::Pipe(Box::new(left), Box::new(right));
        }
        left
    }

    /// Parses a single command: a word for its name and the words that
    /// follow for its arguments.
    ///
    /// For `[Word("echo"), Word("hello")]` it gives `Command(echo [hello])`.
    pub fn parser_command(&mut self) -> (ast: AST)
        requires
            parse_command(old(self)@.tokens, old(self)@.position) is Some,
        ensures
            final(self)@.tokens == old(self)@.tokens,
            parse_command(old(self)@.tokens, old(self)@.position) matches Some((c, r)) && ast@
                == SpecAst::Command(c) && final(self)@.position == r,
    {
        let ghost t = self@.tokens;
        let ghost p0 = self@.position;
        let ghost tokens0 = self.tokens;
        let name = match self.advance() {
            Some(Token::Word(w)) => w,
            _ => {
                proof {
                    assert(false);
                }
                String::new()
            },
        };
        let mut args: Vec<String> = Vec::new();
        proof {
            lemma_words_end_bounds(t, p0 + 1);
        }
        loop
            invariant_except_break
                self.tokens == tokens0,
                self@.tokens == t,
                p0 + 1 <= self@.position <= t.len(),
                words_from(t, p0 + 1) == strings_view(args@) + words_from(t, self@.position),
                words_end(t, p0 + 1) == words_end(t, self@.position),
            ensures
                self.tokens == tokens0,
                strings_view(args@) == words_from(t, p0 + 1),
                self@.position == words_end(t, p0 + 1),
            decreases self.tokens.len() - self.position,
        {
            let ghost q = self@.position;
            match self.peek() {
                Some(Token::Word(_)) => {},
                _ => {
                    assert(strings_view(args@) + words_from(t, q) =~= strings_view(args@));
                    break;
                },
            }
            if let Some(Token::Word(w)) = self.advance() {
                let ghost before = args@;
                args.push(w);
                assert(strings_view(args@) =~= strings_view(before).push(w@));
                assert(words_from(t, p0 + 1) =~= strings_view(args@) + words_from(t, q + 1));
            }
        }
        AST::Command(Command { name, args })
    }

    /// Whether the tokens from the current position on form a pipeline that
    /// [`Parser::parser`] accepts: a word, and after each `|` that follows a
    /// command, another word.
    pub fn can_parse(&self) -> (r: bool)
        ensures
            r == parse_pipeline(self@.tokens, self@.position) is Some,
    {
        let ghost t = self@.tokens;
        let n = self.tokens.len();
        let mut q = self.position;
        if !(q < n && is_word(&self.tokens[q])) {
            return false;
        }
        let ghost first = parse_command(t, q as nat).unwrap().0;
        q = self.skip_words(q + 1);
        let ghost mut left = SpecAst::Command(first);
        proof {
            lemma_words_end_bounds(t, self@.position + 1);
        }
        loop
            invariant_except_break
                t == self@.tokens,
                n == t.len(),
                q <= n,
                pipe_rest(t, left, q as nat) is Some == parse_pipeline(t, self@.position) is Some,
            ensures
                parse_pipeline(t, self@.position) is Some,
            decreases n - q,
        {
            if !(q < n && is_pipe(&self.tokens[q])) {
                break;
            }
            if !(q + 1 < n && is_word(&self.tokens[q + 1])) {
                return false;
            }
            proof {
                let c = parse_command(t, (q + 1) as nat).unwrap().0;
                left = SpecAst::Pipe(Box::new(left), Box::new(SpecAst::Command(c)));
                lemma_words_end_bounds(t, (q + 2) as nat);
            }
            q = self.skip_words(q + 2);
        }
        true
    }

    /// The position of the first token from `p` on that is not a word.
    fn skip_words(&self, p: usize) -> (r: usize)
        requires
            p <= self.tokens.len(),
        ensures
            r == words_end(self@.tokens, p as nat),
    {
        let mut q = p;
        while q < self.tokens.len() && is_word(&self.tokens[q])
            invariant
                p <= q <= self.tokens.len(),
                words_end(self@.tokens, q as nat) == words_end(self@.tokens, p as nat),
            decreases self.tokens.len() - q,
        {
            q = q + 1;
        }
        q
    }
}

/// Whether `t` is a word.
fn is_word(t: &Token) -> (r: bool)
    ensures
        r == t@ is Word,
{
    match t {
        Token::Word(_) => true,
        _ => false,
    }
}

/// Whether `t` is `|`.
fn is_pipe(t: &Token) -> (r: bool)
    ensures
        r == t@ is Pipe,
{
    match t {
        Token::Pipe => true,
        _ => false,
    }
}

} // verus!
