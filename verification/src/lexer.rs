use vstd::prelude::*;
use vstd::string::StringSliceAdditionalSpecFns;
use vstd::utf8::*;

verus! {

/// A lexical token of a command line.
#[derive(Debug, PartialEq)]
pub enum Token {
    /// A word: a command name or an argument.
    Word(String),
    /// `|`
    Pipe,
    /// `&&`
    And,
}

/// The mathematical value of a [`Token`]: a word is its sequence of characters.
pub enum SpecToken {
    Word(Seq<char>),
    Pipe,
    And,
}

impl View for Token {
    type V = SpecToken;

    open spec fn view(&self) -> SpecToken {
        match self {
            Token::Word(w) => SpecToken::Word(w@),
            Token::Pipe => SpecToken::Pipe,
            Token::And => SpecToken::And,
        }
    }
}

impl Clone for Token {
    fn clone(&self) -> (r: Token)
        ensures
            r@ == self@,
    {
        match self {
            Token::Word(w) => Token::Word(w.clone()),
            Token::Pipe => Token::Pipe,
            Token::And => Token::And,
        }
    }
}

/// The values of a sequence of tokens.
pub open spec fn tokens_view(ts: Seq<Token>) -> Seq<SpecToken> {
    ts.map_values(|t: Token| t@)
}

/// What `char::is_alphanumeric` of std returns for `c`: whether `c` is
/// alphabetic or numeric in Unicode. Only its value on characters outside
/// ASCII is left open; see [`alphanumeric_char`].
pub uninterp spec fn alphanumeric(c: char) -> bool;

/// Whether `c` is alphabetic or numeric in Unicode: for an ASCII character,
/// whether it is a letter or a digit; for any other, the value named
/// [`alphanumeric`], which is false of whitespace.
pub open spec fn alphanumeric_char(c: char) -> bool {
    if (c as u32) < 0x80 {
        ascii_alphanumeric(c)
    } else {
        alphanumeric(c) && !whitespace(c)
    }
}

/// Whether `c` is an ASCII letter or digit.
pub open spec fn ascii_alphanumeric(c: char) -> bool {
    let v = c as u32;
    (0x30 <= v <= 0x39) || (0x41 <= v <= 0x5A) || (0x61 <= v <= 0x7A)
}

/// Whether `c` has the Unicode `White_Space` property: tab, line feed,
/// vertical tab, form feed, carriage return, space, next line, no-break
/// space, ogham space mark, the spaces from en quad to hair space, line
/// separator, paragraph separator, narrow no-break space, medium
/// mathematical space and ideographic space.
pub open spec fn whitespace(c: char) -> bool {
    let v = c as u32;
    ||| 0x09 <= v <= 0x0D
    ||| v == 0x20
    ||| v == 0x85
    ||| v == 0xA0
    ||| v == 0x1680
    ||| 0x2000 <= v <= 0x200A
    ||| v == 0x2028
    ||| v == 0x2029
    ||| v == 0x202F
    ||| v == 0x205F
    ||| v == 0x3000
}

/// The number of bytes of the UTF-8 encoding of `c`.
pub open spec fn len_utf8(c: char) -> nat {
    encode_scalar(c as u32).len()
}

/// Calls `char::is_alphanumeric`. Trusted: for an ASCII character it holds
/// exactly of the letters and digits (the only ASCII characters that are
/// alphabetic or numeric); it holds of no whitespace character (no
/// `White_Space` character is alphabetic or numeric); for any other
/// character its result is the value named [`alphanumeric`], and which
/// characters that holds of is not stated.
#[verifier::external_body]
fn char_is_alphanumeric(c: char) -> (b: bool)
    ensures
        (c as u32) < 0x80 ==> b == ascii_alphanumeric(c),
        (c as u32) >= 0x80 ==> b == alphanumeric(c),
        whitespace(c) ==> !b,
{
    c.is_alphanumeric()
}

/// Whether `c` is whitespace, as `char::is_whitespace` decides it: whether
/// it has the Unicode `White_Space` property.
fn char_is_whitespace(c: char) -> (b: bool)
    ensures
        b == whitespace(c),
{
    let v = c as u32;
    (0x09 <= v && v <= 0x0D) || v == 0x20 || v == 0x85 || v == 0xA0 || v == 0x1680 || (0x2000 <= v
        && v <= 0x200A) || v == 0x2028 || v == 0x2029 || v == 0x202F || v == 0x205F || v == 0x3000
}

/// The number of bytes of the UTF-8 encoding of `c`, as `char::len_utf8`
/// gives it.
fn char_len_utf8(c: char) -> (n: usize)
    ensures
        n == len_utf8(c),
{
    broadcast use char_is_scalar;

    let v = c as u32;
    if v < 0x80 {
        1
    } else if v < 0x800 {
        2
    } else if v < 0x10000 {
        3
    } else {
        4
    }
}

/// The number of characters of `cs` that come before byte `p` of its UTF-8
/// encoding, where byte `p` starts a character or is the end of the
/// encoding; `None` at any other byte offset.
pub open spec fn char_index(cs: Seq<char>, p: nat) -> Option<nat>
    decreases cs.len(),
{
    if p == 0 {
        Some(0)
    } else if cs.len() == 0 {
        None
    } else if p < len_utf8(cs[0]) {
        None
    } else {
        match char_index(cs.drop_first(), (p - len_utf8(cs[0])) as nat) {
            Some(i) => Some(i + 1),
            None => None,
        }
    }
}

/// The byte offset of character `i` of `cs` in its UTF-8 encoding.
pub open spec fn byte_offset(cs: Seq<char>, i: int) -> nat {
    encode_utf8(cs.take(i)).len()
}

proof fn lemma_len_utf8_bounds(c: char)
    ensures
        1 <= len_utf8(c) <= 4,
{
}

proof fn lemma_encode_concat(x: Seq<char>, y: Seq<char>)
    ensures
        encode_utf8(x + y) == encode_utf8(x) + encode_utf8(y),
    decreases x.len(),
{
    if x.len() == 0 {
        assert(x + y =~= y);
        assert(encode_utf8(x) + encode_utf8(y) =~= encode_utf8(y));
    } else {
        assert((x + y).drop_first() =~= x.drop_first() + y);
        lemma_encode_concat(x.drop_first(), y);
        assert((x + y)[0] == x[0]);
        assert(encode_utf8(x + y) =~= encode_utf8(x) + encode_utf8(y));
    }
}

proof fn lemma_encode_one(c: char)
    ensures
        encode_utf8(seq![c]) == encode_scalar(c as u32),
{
    let e = Seq::<char>::empty();
    assert(encode_utf8(e) =~= Seq::<u8>::empty());
    assert(seq![c].drop_first() =~= e);
    assert(encode_utf8(seq![c]) =~= encode_scalar(c as u32));
}

/// How the encoding of `cs` splits at character `i`.
proof fn lemma_split_encoding(cs: Seq<char>, i: int)
    requires
        0 <= i <= cs.len(),
    ensures
        encode_utf8(cs) == encode_utf8(cs.take(i)) + encode_utf8(cs.skip(i)),
        encode_utf8(cs).subrange(0, byte_offset(cs, i) as int) == encode_utf8(cs.take(i)),
        encode_utf8(cs).subrange(byte_offset(cs, i) as int, encode_utf8(cs).len() as int)
            == encode_utf8(cs.skip(i)),
        byte_offset(cs, i) <= encode_utf8(cs).len(),
        i < cs.len() ==> byte_offset(cs, i + 1) == byte_offset(cs, i) + len_utf8(cs[i]),
        byte_offset(cs, cs.len() as int) == encode_utf8(cs).len(),
{
    assert(cs =~= cs.take(i) + cs.skip(i));
    lemma_encode_concat(cs.take(i), cs.skip(i));
    let e = encode_utf8(cs);
    assert(e.subrange(0, byte_offset(cs, i) as int) =~= encode_utf8(cs.take(i)));
    assert(e.subrange(byte_offset(cs, i) as int, e.len() as int) =~= encode_utf8(cs.skip(i)));
    if i < cs.len() {
        assert(cs.take(i + 1) =~= cs.take(i) + seq![cs[i]]);
        lemma_encode_concat(cs.take(i), seq![cs[i]]);
        lemma_encode_one(cs[i]);
    }
    assert(cs.take(cs.len() as int) =~= cs);
}

/// `char_index` finds character `i` at its byte offset, and only there.
proof fn lemma_char_index(cs: Seq<char>, p: nat)
    ensures
        char_index(cs, p) matches Some(i) ==> i <= cs.len() && byte_offset(cs, i as int) == p,
    decreases cs.len(),
{
    if p == 0 {
        assert(cs.take(0) =~= Seq::<char>::empty());
    } else if cs.len() > 0 && p >= len_utf8(cs[0]) {
        let rest = cs.drop_first();
        lemma_char_index(rest, (p - len_utf8(cs[0])) as nat);
        if let Some(j) = char_index(rest, (p - len_utf8(cs[0])) as nat) {
            assert(cs.take((j + 1) as int) =~= seq![cs[0]] + rest.take(j as int));
            lemma_encode_concat(seq![cs[0]], rest.take(j as int));
            lemma_encode_one(cs[0]);
        }
    }
}

proof fn lemma_char_index_of(cs: Seq<char>, i: int)
    requires
        0 <= i <= cs.len(),
    ensures
        char_index(cs, byte_offset(cs, i)) == Some(i as nat),
    decreases cs.len(),
{
    if i == 0 {
        assert(cs.take(0) =~= Seq::<char>::empty());
    } else {
        let rest = cs.drop_first();
        assert(cs.take(i) =~= seq![cs[0]] + rest.take(i - 1));
        lemma_encode_concat(seq![cs[0]], rest.take(i - 1));
        lemma_encode_one(cs[0]);
        lemma_len_utf8_bounds(cs[0]);
        lemma_char_index_of(rest, i - 1);
    }
}

/// The byte offsets where `char_index` succeeds are the character boundaries
/// of the encoding.
proof fn lemma_boundary(cs: Seq<char>, p: nat)
    ensures
        is_char_boundary(encode_utf8(cs), p as int) == char_index(cs, p) is Some,
    decreases cs.len(),
{
    broadcast use encode_utf8_valid_utf8;

    let e = encode_utf8(cs);
    if p != 0 && cs.len() > 0 {
        let rest = cs.drop_first();
        encode_utf8_first_scalar(cs);
        assert(pop_first_scalar(e) =~= encode_utf8(rest));
        lemma_boundary(rest, (p - len_utf8(cs[0])) as nat);
        lemma_char_index(cs, p);
        lemma_split_encoding(cs, cs.len() as int);
        if p < len_utf8(cs[0]) {
            reveal_with_fuel(is_char_boundary, 2);
            assert(!is_char_boundary(e, p as int));
        }
    }
}

/// Cuts `cmd` at byte offsets `start` and `end`, both starts of characters
/// or the end.
fn byte_slice(cmd: &str, start: usize, end: usize) -> (r: &str)
    requires
        char_index(cmd@, start as nat) is Some,
        char_index(cmd@, end as nat) is Some,
        start <= end,
    ensures
        r@ == cmd@.subrange(
            char_index(cmd@, start as nat).unwrap() as int,
            char_index(cmd@, end as nat).unwrap() as int,
        ),
{
    broadcast use encode_utf8_decode_utf8;

    let ghost cs = cmd@;
    let ghost i = char_index(cs, start as nat).unwrap() as int;
    let ghost j = char_index(cs, end as nat).unwrap() as int;
    proof {
        lemma_char_index(cs, start as nat);
        lemma_char_index(cs, end as nat);
        lemma_boundary(cs, end as nat);
        lemma_split_encoding(cs, j);
        lemma_char_index_monotone(cs, start as nat, end as nat);
    }
    let (left, _) = cmd.split_at(end);
    proof {
        assert(left@ == decode_utf8(left.spec_bytes()));
        assert(left@ == cs.take(j));
        let l = cs.take(j);
        assert(l.take(i) =~= cs.take(i));
        lemma_char_index_of(l, i);
        lemma_boundary(l, start as nat);
        lemma_split_encoding(l, i);
    }
    let (_, word) = left.split_at(start);
    proof {
        assert(word@ == decode_utf8(word.spec_bytes()));
        assert(cs.take(j).skip(i) =~= cs.subrange(i, j));
    }
    word
}

/// The number of bytes of `cmd`.
fn byte_len(cmd: &str) -> (n: usize)
    ensures
        n == encode_utf8(cmd@).len(),
{
    cmd.as_bytes().len()
}


/// The state of the lexer's automaton.
#[derive(Debug, Clone, Copy, PartialEq, Eq, Structural)]
pub enum LexerState {
    /// Between tokens.
    Nomarl,
    /// Inside a word.
    InWord,
    /// After one `&`, waiting for the second.
    InNextAnd,
}

/// The mathematical value of a [`Lexer`]. Positions are byte offsets into
/// the UTF-8 encoding of the input.
pub struct LexerModel {
    /// The tokens completed so far.
    pub parts: Seq<SpecToken>,
    pub state: LexerState,
    /// How many bytes of the input have been read.
    pub position: nat,
    /// A stack of byte offsets: the top one is where the current word starts.
    pub store: Seq<nat>,
}

/// A lexer: reads a command line one character at a time and collects its
/// tokens in `parts`.
#[derive(Debug)]
pub struct Lexer {
    pub parts: Vec<Token>,
    _state: LexerState,
    position: usize,
    store: Vec<usize>,
}

impl View for Lexer {
    type V = LexerModel;

    closed spec fn view(&self) -> LexerModel {
        LexerModel {
            parts: tokens_view(self.parts@),
            state: self._state,
            position: self.position as nat,
            store: self.store@.map_values(|i: usize| i as nat),
        }
    }
}

/// The lexer as [`Lexer::new`] makes it.
pub open spec fn initial() -> LexerModel {
    LexerModel { parts: seq![], state: LexerState::Nomarl, position: 0, store: seq![] }
}

/// The characters of `cmd` between byte offsets `start` and `end`; `None`
/// where the range is reversed or an end does not start a character (nor is
/// the end of `cmd`).
pub open spec fn word_at(cmd: Seq<char>, start: nat, end: nat) -> Option<Seq<char>> {
    match (char_index(cmd, start), char_index(cmd, end)) {
        (Some(i), Some(j)) => if start <= end {
            Some(cmd.subrange(i as int, j as int))
        } else {
            None
        },
        _ => None,
    }
}

/// The lexer after reading `c` in the normal state (`s.position` already
/// counts the bytes of `c`), given whether `c` is alphanumeric and whether it
/// is whitespace; `None` where no token can start with `c`.
pub open spec fn on_normal(s: LexerModel, c: char, alnum: bool, space: bool) -> Option<LexerModel> {
    if alnum {
        Some(
            LexerModel {
                parts: s.parts,
                state: LexerState::InWord,
                position: s.position,
                store: s.store.push((s.position - len_utf8(c)) as nat),
            },
        )
    } else if c == '|' {
        Some(
            LexerModel {
                parts: s.parts.push(SpecToken::Pipe),
                state: s.state,
                position: s.position,
                store: s.store,
            },
        )
    } else if c == '&' {
        Some(
            LexerModel {
                parts: s.parts,
                state: LexerState::InNextAnd,
                position: s.position,
                store: s.store,
            },
        )
    } else if space {
        Some(s)
    } else {
        None
    }
}

/// The lexer after reading `c` inside a word (`s.position` already counts
/// the bytes of `c`), given whether `c` is whitespace. Whitespace completes
/// the word, from the byte offset on top of the store up to `c`, and returns
/// to the normal state; anything else keeps the lexer inside the word.
/// `None` where that range of `cmd` cannot be cut.
pub open spec fn on_word(s: LexerModel, cmd: Seq<char>, c: char, space: bool) -> Option<LexerModel> {
    if space {
        if s.store.len() > 0 {
            match word_at(cmd, s.store.last(), (s.position - len_utf8(c)) as nat) {
                Some(w) => Some(
                    LexerModel {
                        parts: s.parts.push(SpecToken::Word(w)),
                        state: LexerState::Nomarl,
                        position: s.position,
                        store: s.store.drop_last(),
                    },
                ),
                None => None,
            }
        } else {
            Some(
                LexerModel {
                    parts: s.parts,
                    state: LexerState::Nomarl,
                    position: s.position,
                    store: s.store,
                },
            )
        }
    } else {
        Some(
            LexerModel {
                parts: s.parts,
                state: LexerState::InWord,
                position: s.position,
                store: s.store,
            },
        )
    }
}

/// The lexer after reading `c` following one `&` (`s.position` already
/// counts the bytes of `c`): a second `&` completes the token and pushes
/// its byte offset on the store; anything else is skipped.
pub open spec fn on_next_and(s: LexerModel, c: char) -> LexerModel {
    if c == '&' {
        LexerModel {
            parts: s.parts.push(SpecToken::And),
            state: LexerState::Nomarl,
            position: s.position,
            store: s.store.push((s.position - len_utf8(c)) as nat),
        }
    } else {
        s
    }
}

/// `s` with `n` more bytes read.
pub open spec fn advanced(s: LexerModel, n: nat) -> LexerModel {
    LexerModel { parts: s.parts, state: s.state, position: s.position + n, store: s.store }
}

/// One step of the lexer: the character of `cmd` that starts at byte
/// `s.position` is read and handled; `None` where no character starts there.
pub open spec fn step(s: LexerModel, cmd: Seq<char>) -> Option<LexerModel> {
    match char_index(cmd, s.position) {
        Some(i) => if i < cmd.len() {
            let c = cmd[i as int];
            let t = advanced(s, len_utf8(c));
            match s.state {
                LexerState::Nomarl => on_normal(t, c, alphanumeric_char(c), whitespace(c)),
                LexerState::InWord => on_word(t, cmd, c, whitespace(c)),
                LexerState::InNextAnd => Some(on_next_and(t, c)),
            }
        } else {
            None
        },
        None => None,
    }
}

/// The lexer after reading the rest of `cmd` from byte `s.position` on;
/// `None` where a step fails.
pub open spec fn run(s: LexerModel, cmd: Seq<char>) -> Option<LexerModel>
    decreases encode_utf8(cmd).len() - s.position,
{
    if s.position < encode_utf8(cmd).len() {
        match step(s, cmd) {
            Some(t) => {
                proof {
                    lemma_step_advances(s, cmd);
                }
                run(t, cmd)
            },
            None => None,
        }
    } else {
        Some(s)
    }
}

pub proof fn lemma_step_advances(s: LexerModel, cmd: Seq<char>)
    ensures
        step(s, cmd) matches Some(t) ==> s.position < t.position <= encode_utf8(cmd).len(),
{
    if let Some(i) = char_index(cmd, s.position) {
        if i < cmd.len() {
            lemma_len_utf8_bounds(cmd[i as int]);
            lemma_char_index(cmd, s.position);
            lemma_split_encoding(cmd, i as int);
            lemma_split_encoding(cmd, (i + 1) as int);
        }
    }
}

/// The end of input: a word still open is completed, from the byte offset on
/// top of the store to the current position; `None` where there is no such
/// offset or that range of `cmd` cannot be cut.
pub open spec fn finish(s: LexerModel, cmd: Seq<char>) -> Option<LexerModel> {
    if s.state == LexerState::InWord {
        if s.store.len() > 0 {
            match word_at(cmd, s.store.last(), s.position) {
                Some(w) => Some(
                    LexerModel {
                        parts: s.parts.push(SpecToken::Word(w)),
                        state: s.state,
                        position: s.position,
                        store: s.store.drop_last(),
                    },
                ),
                None => None,
            }
        } else {
            None
        }
    } else {
        Some(s)
    }
}

/// The lexer after [`Lexer::lexar_allocation`] from `s` on `cmd`; `None`
/// where lexing cannot complete.
pub open spec fn lex_outcome(s: LexerModel, cmd: Seq<char>) -> Option<LexerModel> {
    match run(s, cmd) {
        Some(t) => finish(t, cmd),
        None => None,
    }
}

/// `w` is a word of `cmd`: a nonempty stretch of `cmd` whose first
/// character is alphanumeric, which holds no whitespace, and which runs up to
/// whitespace or the end of `cmd`.
pub open spec fn is_word_of(cmd: Seq<char>, w: Seq<char>) -> bool {
    &&& w.len() > 0
    &&& alphanumeric_char(w[0])
    &&& forall|j: int| 0 <= j < w.len() ==> !whitespace(#[trigger] w[j])
    &&& exists|a: int|
        #![trigger cmd.subrange(a, a + w.len())]
        0 <= a && a + w.len() <= cmd.len() && cmd.subrange(a, a + w.len()) == w && (a + w.len()
            == cmd.len() || whitespace(cmd[a + w.len()]))
}

/// What holds of every state that a new lexer reaches on `cmd`.
spec fn words_invariant(s: LexerModel, cmd: Seq<char>) -> bool {
    &&& char_index(cmd, s.position) is Some
    &&& forall|i: int|
        0 <= i < s.parts.len() ==> (#[trigger] s.parts[i] matches SpecToken::Word(w) ==> is_word_of(cmd, w))
    &&& s.state == LexerState::InWord ==> {
        &&& s.store.len() > 0
        &&& char_index(cmd, s.store.last()) is Some
        &&& char_index(cmd, s.store.last()).unwrap() < char_index(cmd, s.position).unwrap()
        &&& alphanumeric_char(cmd[char_index(cmd, s.store.last()).unwrap() as int])
        &&& forall|j: int|
            char_index(cmd, s.store.last()).unwrap() < j < char_index(cmd, s.position).unwrap()
                ==> !whitespace(#[trigger] cmd[j])
    }
}

proof fn lemma_word_of_range(cmd: Seq<char>, a: int, b: int)
    requires
        0 <= a < b <= cmd.len(),
        alphanumeric_char(cmd[a]),
        forall|j: int| a < j < b ==> !whitespace(#[trigger] cmd[j]),
        b == cmd.len() || whitespace(cmd[b]),
    ensures
        is_word_of(cmd, cmd.subrange(a, b)),
{
    let w = cmd.subrange(a, b);
    assert(w[0] == cmd[a]);
    assert forall|j: int| 0 <= j < w.len() implies !whitespace(#[trigger] w[j]) by {
        assert(w[j] == cmd[a + j]);
    }
    assert(cmd.subrange(a, a + w.len()) == w);
}

proof fn lemma_step_keeps_words(s: LexerModel, cmd: Seq<char>)
    requires
        words_invariant(s, cmd),
        s.position < encode_utf8(cmd).len(),
        step(s, cmd) is Some,
    ensures
        words_invariant(step(s, cmd).unwrap(), cmd),
{
    let t = step(s, cmd).unwrap();
    let i = char_index(cmd, s.position).unwrap();
    lemma_char_index(cmd, s.position);
    lemma_split_encoding(cmd, cmd.len() as int);
    assert(i < cmd.len());
    let c = cmd[i as int];
    lemma_split_encoding(cmd, i as int);
    lemma_char_index_of(cmd, (i + 1) as int);
    assert(t.position == byte_offset(cmd, (i + 1) as int));
    assert(char_index(cmd, t.position) == Some((i + 1) as nat));
    if s.state == LexerState::InWord && whitespace(c) {
        let start = char_index(cmd, s.store.last()).unwrap() as int;
        lemma_word_of_range(cmd, start, i as int);
    }
    if (s.state == LexerState::Nomarl && alphanumeric_char(c)) || (s.state == LexerState::InNextAnd && c
        == '&') {
        lemma_char_index_of(cmd, i as int);
    }
    assert forall|k: int| 0 <= k < t.parts.len() implies (#[trigger] t.parts[k] matches SpecToken::Word(
        w,
    ) ==> is_word_of(cmd, w)) by {
        if k < s.parts.len() {
            assert(t.parts[k] == s.parts[k]);
        }
    }
}

proof fn lemma_run_keeps_words(s: LexerModel, cmd: Seq<char>)
    requires
        words_invariant(s, cmd),
    ensures
        run(s, cmd) matches Some(t) ==> words_invariant(t, cmd) && t.position == encode_utf8(
            cmd,
        ).len(),
    decreases encode_utf8(cmd).len() - s.position,
{
    lemma_char_index(cmd, s.position);
    lemma_split_encoding(cmd, char_index(cmd, s.position).unwrap() as int);
    if s.position < encode_utf8(cmd).len() {
        lemma_step_advances(s, cmd);
        if step(s, cmd) is Some {
            lemma_step_keeps_words(s, cmd);
            lemma_run_keeps_words(step(s, cmd).unwrap(), cmd);
        }
    }
}

/// Every word that a new lexer produces from `cmd` is a nonempty stretch of
/// `cmd` that starts with an alphanumeric character, holds no whitespace,
/// and runs up to whitespace or the end of `cmd`.
pub proof fn law_lexed_words(cmd: Seq<char>)
    ensures
        lex_outcome(initial(), cmd) matches Some(s) ==> forall|i: int|
            0 <= i < s.parts.len() ==> (#[trigger] s.parts[i] matches SpecToken::Word(w) ==> is_word_of(
                cmd,
                w,
            )),
{
    lemma_run_keeps_words(initial(), cmd);
    if let Some(t) = run(initial(), cmd) {
        if let Some(s) = finish(t, cmd) {
            if t.state == LexerState::InWord {
                lemma_split_encoding(cmd, cmd.len() as int);
                lemma_char_index_of(cmd, cmd.len() as int);
                lemma_word_of_range(
                    cmd,
                    char_index(cmd, t.store.last()).unwrap() as int,
                    cmd.len() as int,
                );
            }
            assert forall|i: int| 0 <= i < s.parts.len() implies (#[trigger] s.parts[i] matches SpecToken::Word(
                w,
            ) ==> is_word_of(cmd, w)) by {
                if i < t.parts.len() {
                    assert(s.parts[i] == t.parts[i]);
                }
            }
        }
    }
}

proof fn lemma_byte_offset_monotone(cs: Seq<char>, i: int, j: int)
    requires
        0 <= i <= j <= cs.len(),
    ensures
        byte_offset(cs, i) <= byte_offset(cs, j),
        i < j ==> byte_offset(cs, i) < byte_offset(cs, j),
{
    let t = cs.take(j);
    lemma_split_encoding(t, i);
    assert(t.take(i) =~= cs.take(i));
    if i < j {
        lemma_split_encoding(t, i + 1);
        assert(t.take(i + 1) =~= cs.take(i + 1));
        lemma_split_encoding(cs, i);
        lemma_len_utf8_bounds(cs[i]);
        lemma_split_encoding(t, i);
        assert(t[i] == cs[i]);
    }
}

/// Byte offsets and character indices go up together.
proof fn lemma_char_index_monotone(cs: Seq<char>, u: nat, v: nat)
    requires
        char_index(cs, u) is Some,
        char_index(cs, v) is Some,
    ensures
        u <= v <==> char_index(cs, u).unwrap() <= char_index(cs, v).unwrap(),
{
    lemma_char_index(cs, u);
    lemma_char_index(cs, v);
    let i = char_index(cs, u).unwrap() as int;
    let j = char_index(cs, v).unwrap() as int;
    if i <= j {
        lemma_byte_offset_monotone(cs, i, j);
    } else {
        lemma_byte_offset_monotone(cs, j, i);
    }
}

proof fn lemma_char_index_after(x: Seq<char>, y: Seq<char>, q: nat)
    ensures
        char_index(x + y, encode_utf8(x).len() + q) == (match char_index(y, q) {
            Some(i) => Some(i + x.len()),
            None => None,
        }),
    decreases x.len(),
{
    if x.len() == 0 {
        assert(x + y =~= y);
    } else {
        let l = len_utf8(x[0]);
        lemma_len_utf8_bounds(x[0]);
        assert((x + y)[0] == x[0]);
        assert((x + y).drop_first() =~= x.drop_first() + y);
        assert(encode_utf8(x).len() == l + encode_utf8(x.drop_first()).len());
        lemma_char_index_after(x.drop_first(), y, q);
    }
}

proof fn lemma_char_index_before(x: Seq<char>, y: Seq<char>, q: nat)
    requires
        q <= encode_utf8(x).len(),
    ensures
        char_index(x + y, q) == char_index(x, q),
    decreases x.len(),
{
    if q != 0 && x.len() > 0 {
        let l = len_utf8(x[0]);
        assert((x + y)[0] == x[0]);
        assert((x + y).drop_first() =~= x.drop_first() + y);
        assert(encode_utf8(x).len() == l + encode_utf8(x.drop_first()).len());
        if q >= l {
            lemma_char_index_before(x.drop_first(), y, (q - l) as nat);
        }
    }
}

proof fn lemma_word_at_after(x: Seq<char>, y: Seq<char>, u: nat, v: nat)
    ensures
        word_at(x + y, u + encode_utf8(x).len(), v + encode_utf8(x).len()) == word_at(y, u, v),
{
    let off = encode_utf8(x).len();
    lemma_char_index_after(x, y, u);
    lemma_char_index_after(x, y, v);
    if let (Some(i), Some(j)) = (char_index(y, u), char_index(y, v)) {
        if u <= v {
            lemma_char_index_monotone(y, u, v);
            lemma_char_index(y, v);
            assert((x + y).subrange((i + x.len()) as int, (j + x.len()) as int) =~= y.subrange(i as int, j as int));
        }
    }
}

proof fn lemma_word_at_before(x: Seq<char>, y: Seq<char>, u: nat, v: nat)
    requires
        v <= encode_utf8(x).len(),
    ensures
        word_at(x + y, u, v) == word_at(x, u, v),
{
    lemma_char_index_before(x, y, v);
    if u <= v {
        lemma_char_index_before(x, y, u);
        if let (Some(i), Some(j)) = (char_index(x, u), char_index(x, v)) {
            lemma_char_index(x, v);
            lemma_char_index_monotone(x, u, v);
            assert((x + y).subrange(i as int, j as int) =~= x.subrange(i as int, j as int));
        }
    }
}

/// `s`, a lexer on a longer input, is `t`, a lexer on the input from byte
/// `off` on, behind what `base` had already done: the tokens of `base` come
/// first, and the byte offsets of `t` are shifted by `off`.
spec fn shifted(s: LexerModel, t: LexerModel, base: LexerModel, off: nat) -> bool {
    &&& s.parts == base.parts + t.parts
    &&& s.state == t.state
    &&& s.position == t.position + off
    &&& s.store == base.store + t.store.map_values(|p: nat| (p + off) as nat)
}

proof fn lemma_step_shifted(s: LexerModel, t: LexerModel, base: LexerModel, x: Seq<char>, b: Seq<char>)
    requires
        shifted(s, t, base, encode_utf8(x).len()),
        words_invariant(t, b),
        t.position < encode_utf8(b).len(),
    ensures
        step(s, x + b) is Some == step(t, b) is Some,
        step(t, b) is Some ==> shifted(step(s, x + b).unwrap(), step(t, b).unwrap(), base, encode_utf8(x).len()),
{
    let c = x + b;
    let off = encode_utf8(x).len();
    lemma_char_index_after(x, b, t.position);
    let i = char_index(b, t.position).unwrap();
    lemma_char_index(b, t.position);
    lemma_split_encoding(b, b.len() as int);
    assert(i < b.len());
    let ch = b[i as int];
    assert(c[(i + x.len()) as int] == ch);
    let f = |p: nat| (p + off) as nat;
    let ts = t.store;
    let ta = advanced(t, len_utf8(ch));
    let sa = advanced(s, len_utf8(ch));
    lemma_len_utf8_bounds(ch);
    assert(shifted(sa, ta, base, off));
    if t.state == LexerState::InWord && whitespace(ch) {
        lemma_word_at_after(x, b, ts.last(), (ta.position - len_utf8(ch)) as nat);
        assert(s.store.last() == ts.last() + off);
    }
    if let Some(u) = step(t, b) {
        let v = step(s, c).unwrap();
        if (t.state == LexerState::Nomarl && alphanumeric_char(ch)) || (t.state == LexerState::InNextAnd
            && ch == '&') {
            assert(ts.push(t.position).map_values(f) =~= ts.map_values(f).push(t.position + off));
            assert(v.store =~= base.store + u.store.map_values(f));
            assert(v.parts =~= base.parts + u.parts);
        } else if t.state == LexerState::InWord && whitespace(ch) {
            assert(ts.drop_last().map_values(f) =~= ts.map_values(f).drop_last());
            assert(v.store =~= base.store + u.store.map_values(f));
            assert(v.parts =~= base.parts + u.parts);
        } else if t.state == LexerState::Nomarl && ch == '|' {
            assert(v.parts =~= base.parts + u.parts);
        }
    }
}

proof fn lemma_run_shifted(s: LexerModel, t: LexerModel, base: LexerModel, x: Seq<char>, b: Seq<char>)
    requires
        shifted(s, t, base, encode_utf8(x).len()),
        words_invariant(t, b),
    ensures
        run(s, x + b) is Some == run(t, b) is Some,
        run(t, b) is Some ==> shifted(run(s, x + b).unwrap(), run(t, b).unwrap(), base, encode_utf8(x).len())
            && words_invariant(run(t, b).unwrap(), b),
    decreases encode_utf8(b).len() - t.position,
{
    lemma_encode_concat(x, b);
    if t.position < encode_utf8(b).len() {
        lemma_step_shifted(s, t, base, x, b);
        lemma_step_advances(t, b);
        if step(t, b) is Some {
            lemma_step_keeps_words(t, b);
            lemma_run_shifted(step(s, x + b).unwrap(), step(t, b).unwrap(), base, x, b);
        }
    }
}

proof fn lemma_run_prefix(s: LexerModel, a: Seq<char>, y: Seq<char>)
    requires
        s.position <= encode_utf8(a).len(),
    ensures
        run(s, a) matches Some(m) ==> m.position == encode_utf8(a).len() && run(s, a + y) == run(m, a + y),
        run(s, a) is None ==> run(s, a + y) is None,
    decreases encode_utf8(a).len() - s.position,
{
    lemma_encode_concat(a, y);
    if s.position < encode_utf8(a).len() {
        lemma_char_index_before(a, y, s.position);
        if let Some(i) = char_index(a, s.position) {
            lemma_char_index(a, s.position);
            lemma_split_encoding(a, a.len() as int);
            assert(i < a.len());
            let ch = a[i as int];
            assert((a + y)[i as int] == ch);
            if s.store.len() > 0 {
                lemma_word_at_before(a, y, s.store.last(), s.position);
            }
        }
        assert(step(s, a) == step(s, a + y));
        lemma_step_advances(s, a);
        if let Some(u) = step(s, a) {
            lemma_run_prefix(u, a, y);
        }
    }
}

/// The lexer has read all of `a` and waits for the second `&` of a token.
pub open spec fn ends_in_lone_ampersand(a: Seq<char>) -> bool {
    run(initial(), a) matches Some(m) && m.state == LexerState::InNextAnd
}

/// Lexing two pieces of a line joined by a whitespace character gives the tokens of the first piece followed by those of the
/// second, and succeeds exactly where both pieces are lexed; unless the
/// first piece ends in a lone `&`, which swallows the separator.
pub proof fn law_lex_concat(a: Seq<char>, sep: char, b: Seq<char>)
    requires
        whitespace(sep),
        !ends_in_lone_ampersand(a),
    ensures
        lex_outcome(initial(), a + seq![sep] + b) is Some == (lex_outcome(initial(), a) is Some
            && lex_outcome(initial(), b) is Some),
        lex_outcome(initial(), a + seq![sep] + b) is Some ==> lex_outcome(initial(), a + seq![sep]
            + b).unwrap().parts == lex_outcome(initial(), a).unwrap().parts + lex_outcome(
            initial(),
            b,
        ).unwrap().parts,
{
    let x = a + seq![sep];
    let y = seq![sep] + b;
    let c = a + seq![sep] + b;
    assert(c =~= x + b);
    assert(c =~= a + y);
    let off = encode_utf8(x).len();
    lemma_encode_concat(a, seq![sep]);
    lemma_encode_one(sep);
    lemma_encode_concat(a, y);
    lemma_run_prefix(initial(), a, y);
    lemma_char_index_of(a, 0);
    assert(a.take(0) =~= Seq::<char>::empty());
    lemma_run_keeps_words(initial(), a);
    lemma_char_index_of(b, 0);
    assert(b.take(0) =~= Seq::<char>::empty());
    lemma_run_keeps_words(initial(), b);
    if let Some(m) = run(initial(), a) {
        let pa = encode_utf8(a).len();
        lemma_char_index_after(a, y, 0);
        assert(char_index(y, 0) == Some(0nat));
        assert(c[a.len() as int] == sep);
        lemma_char_index_of(a, a.len() as int);
        lemma_split_encoding(a, a.len() as int);
        assert(char_index(a, pa) == Some(a.len() as nat));
        if m.state == LexerState::InWord {
            lemma_word_at_before(a, y, m.store.last(), pa);
            lemma_char_index_monotone(a, m.store.last(), pa);
        }
        assert(sep != '|' && sep != '&');
        assert(step(m, c) is Some);
        lemma_len_utf8_bounds(sep);
        let base = step(m, c).unwrap();
        assert(base.parts == finish(m, a).unwrap().parts);
        assert(base.store == finish(m, a).unwrap().store);
        assert(base.state == LexerState::Nomarl);
        assert(base.position == off);
        assert(run(m, c) == run(base, c));
        let f = |p: nat| (p + off) as nat;
        assert(base.parts + initial().parts =~= base.parts);
        assert(base.store + initial().store.map_values(f) =~= base.store);
        lemma_run_shifted(base, initial(), base, x, b);
        if let Some(tb) = run(initial(), b) {
            let sb = run(base, c).unwrap();
            if tb.state == LexerState::InWord {
                assert(sb.store.last() == tb.store.last() + off);
                lemma_word_at_after(x, b, tb.store.last(), tb.position);
            }
            if let Some(fb) = finish(tb, b) {
                let fc = finish(sb, c).unwrap();
                assert(fc.parts =~= finish(m, a).unwrap().parts + fb.parts);
            }
        }
    }
}

/// The number of `|` characters that `w` starts with.
pub open spec fn leading_pipes(w: Seq<char>) -> nat
    decreases w.len(),
{
    if w.len() > 0 && w[0] == '|' {
        1 + leading_pipes(w.drop_first())
    } else {
        0
    }
}

/// `n` pipe tokens.
pub open spec fn pipes(n: nat) -> Seq<SpecToken> {
    Seq::new(n, |i: int| SpecToken::Pipe)
}

proof fn lemma_leading_pipes(w: Seq<char>, i: int)
    requires
        0 <= i <= w.len(),
    ensures
        leading_pipes(w) <= w.len(),
        i < leading_pipes(w) ==> w[i] == '|',
        leading_pipes(w) < w.len() ==> w[leading_pipes(w) as int] != '|',
    decreases w.len(),
{
    if w.len() > 0 && w[0] == '|' {
        if i > 0 {
            lemma_leading_pipes(w.drop_first(), i - 1);
        } else {
            lemma_leading_pipes(w.drop_first(), 0);
        }
    }
}

/// A state of a new lexer on `w` at character `i`, all characters read so
/// far being `|`.
spec fn at_pipes(s: LexerModel, w: Seq<char>, i: int) -> bool {
    &&& s.state == LexerState::Nomarl
    &&& s.position == byte_offset(w, i)
    &&& s.parts == pipes(i as nat)
    &&& s.store == Seq::<nat>::empty()
}

/// A state of a new lexer on `w` at character `i`, inside the word that
/// starts at character `k`.
spec fn in_chunk_word(s: LexerModel, w: Seq<char>, k: int, i: int) -> bool {
    &&& s.state == LexerState::InWord
    &&& s.position == byte_offset(w, i)
    &&& s.parts == pipes(k as nat)
    &&& s.store == seq![byte_offset(w, k)]
}

proof fn lemma_run_chunk_word(s: LexerModel, w: Seq<char>, k: int, i: int)
    requires
        0 <= k < i <= w.len(),
        in_chunk_word(s, w, k, i),
        forall|j: int| 0 <= j < w.len() ==> !whitespace(#[trigger] w[j]),
    ensures
        run(s, w) == Some(
            LexerModel {
                parts: pipes(k as nat),
                state: LexerState::InWord,
                position: encode_utf8(w).len(),
                store: seq![byte_offset(w, k)],
            },
        ),
    decreases w.len() - i,
{
    lemma_split_encoding(w, w.len() as int);
    if i < w.len() {
        lemma_byte_offset_monotone(w, i, w.len() as int);
        lemma_char_index_of(w, i);
        lemma_split_encoding(w, i);
        let t = step(s, w).unwrap();
        assert(in_chunk_word(t, w, k, i + 1));
        lemma_run_chunk_word(t, w, k, i + 1);
    }
}

proof fn lemma_run_chunk(s: LexerModel, w: Seq<char>, i: int)
    requires
        0 <= i <= leading_pipes(w),
        at_pipes(s, w, i),
        forall|j: int| 0 <= j < w.len() ==> !whitespace(#[trigger] w[j]) && w[j] != '&',
    ensures
        ({
            let k = leading_pipes(w) as int;
            if k == w.len() {
                run(s, w) == Some(
                    LexerModel {
                        parts: pipes(k as nat),
                        state: LexerState::Nomarl,
                        position: encode_utf8(w).len(),
                        store: Seq::<nat>::empty(),
                    },
                )
            } else if alphanumeric_char(w[k]) {
                run(s, w) == Some(
                    LexerModel {
                        parts: pipes(k as nat),
                        state: LexerState::InWord,
                        position: encode_utf8(w).len(),
                        store: seq![byte_offset(w, k)],
                    },
                )
            } else {
                run(s, w) is None
            }
        }),
    decreases w.len() - i,
{
    let k = leading_pipes(w) as int;
    lemma_leading_pipes(w, 0);
    lemma_leading_pipes(w, i);
    lemma_split_encoding(w, w.len() as int);
    if i < w.len() {
        lemma_byte_offset_monotone(w, i, w.len() as int);
        lemma_char_index_of(w, i);
        lemma_split_encoding(w, i);
        let c = w[i];
        if i < k {
            assert(c == '|');
            let t = step(s, w).unwrap();
            assert(t.parts =~= pipes((i + 1) as nat));
            assert(at_pipes(t, w, i + 1));
            lemma_run_chunk(t, w, i + 1);
        } else if alphanumeric_char(c) {
            let t = step(s, w).unwrap();
            assert(t.store =~= seq![byte_offset(w, k)]);
            assert(in_chunk_word(t, w, k, i + 1));
            lemma_run_chunk_word(t, w, k, i + 1);
        } else {
            assert(c != '|');
            assert(step(s, w) is None);
        }
    }
}

/// A chunk of a line with no whitespace and no `&` is lexed by a new lexer
/// into one pipe token for each `|` it starts with, then, if anything is
/// left, one word of the rest; that rest must start with an alphanumeric
/// character, and otherwise lexing fails.
pub proof fn law_lex_chunk(w: Seq<char>)
    requires
        forall|j: int| 0 <= j < w.len() ==> !whitespace(#[trigger] w[j]) && w[j] != '&',
    ensures
        ({
            let k = leading_pipes(w) as int;
            &&& lex_outcome(initial(), w) is Some == (k == w.len() || alphanumeric_char(w[k]))
            &&& lex_outcome(initial(), w) is Some ==> lex_outcome(initial(), w).unwrap().parts == if k
                == w.len() {
                pipes(k as nat)
            } else {
                pipes(k as nat).push(SpecToken::Word(w.skip(k)))
            }
        }),
{
    let k = leading_pipes(w) as int;
    lemma_leading_pipes(w, 0);
    assert(w.take(0) =~= Seq::<char>::empty());
    assert(pipes(0) =~= Seq::<SpecToken>::empty());
    assert(at_pipes(initial(), w, 0));
    lemma_run_chunk(initial(), w, 0);
    if k < w.len() && alphanumeric_char(w[k]) {
        lemma_split_encoding(w, w.len() as int);
        lemma_char_index_of(w, k);
        lemma_char_index_of(w, w.len() as int);
        lemma_byte_offset_monotone(w, k, w.len() as int);
        assert(w.subrange(k, w.len() as int) =~= w.skip(k));
    }
}

impl Lexer {
    /// A lexer in the normal state, before the first character, with no
    /// tokens.
    pub fn new() -> (r: Self)
        ensures
            r@ == initial(),
    {
        let r = Lexer { parts: Vec::new(), _state: LexerState::Nomarl, position: 0, store: Vec::new() };
        assert(r@.parts =~= seq![]);
        assert(r@.store =~= seq![]);
        r
    }

    /// The tokens completed so far.
    pub fn parts(&self) -> (r: &Vec<Token>)
        ensures
            tokens_view(r@) == self@.parts,
    {
        &self.parts
    }

    /// Reads the character of `cmd` that starts at the current byte offset,
    /// if there is one, and moves past its bytes.
    fn new_state(&mut self, cmd: &str) -> (r: Option<char>)
        requires
            char_index(cmd@, old(self)@.position) is Some,
        ensures
            ({
                let i = char_index(cmd@, old(self)@.position).unwrap();
                if i < cmd@.len() {
                    r == Some(cmd@[i as int]) && final(self)@ == advanced(old(self)@, len_utf8(cmd@[i as int]))
                } else {
                    r is None && final(self)@ == old(self)@
                }
            }),
    {
        broadcast use encode_utf8_decode_utf8;

        let ghost cs = cmd@;
        let ghost i = char_index(cs, self@.position).unwrap() as int;
        let total = byte_len(cmd);
        proof {
            lemma_char_index(cs, self@.position);
            lemma_boundary(cs, self@.position);
            lemma_split_encoding(cs, i);
            if i < cs.len() {
                lemma_split_encoding(cs, i + 1);
            }
        }
        let (_, rest) = cmd.split_at(self.position);
        assert(rest@ == decode_utf8(rest.spec_bytes()));
        assert(rest@ == cs.skip(i));
        if rest.is_empty() {
            return None;
        }
        let ch = rest.get_char(0);
        self.position = self.position + char_len_utf8(ch);
        Some(ch)
    }

    /// Handles a character read in the normal state, given whether it is
    /// alphanumeric and whether it is whitespace: an alphanumeric character
    /// starts a word at its byte offset, `|` completes a pipe token, `&` may
    /// start `&&`, and whitespace is skipped. Returns `false`, and then the
    /// lexer is not to be used further, exactly for any other character.
    pub fn accept_normal(&mut self, ch: char, alnum: bool, space: bool) -> (r: bool)
        requires
            alnum ==> old(self)@.position >= len_utf8(ch),
        ensures
            r == on_normal(old(self)@, ch, alnum, space) is Some,
            r ==> final(self)@ == on_normal(old(self)@, ch, alnum, space).unwrap(),
    {
        let ghost s = self@;
        if alnum {
            self.store.push(self.position - char_len_utf8(ch));
            self._state = LexerState::InWord;
            assert(self@.store =~= s.store.push((s.position - len_utf8(ch)) as nat));
            true
        } else if ch == '|' {
            self.parts.push(Token::Pipe);
            assert(self@.parts =~= s.parts.push(SpecToken::Pipe));
            true
        } else if ch == '&' {
            self._state = LexerState::InNextAnd;
            true
        } else if space {
            true
        } else {
            false
        }
    }

    /// Handles a character `ch` read inside a word, given whether it is
    /// whitespace: whitespace completes the word, from the byte offset on top
    /// of the store up to `ch`, and returns to the normal state; anything
    /// else continues the word. Returns `false`, and then the lexer is not to
    /// be used further, exactly where that range of `cmd` cannot be cut.
    pub fn accept_in_word(&mut self, cmd: &str, ch: char, space: bool) -> (r: bool)
        requires
            space && old(self)@.store.len() > 0 ==> old(self)@.position >= len_utf8(ch),
        ensures
            r == on_word(old(self)@, cmd@, ch, space) is Some,
            r ==> final(self)@ == on_word(old(self)@, cmd@, ch, space).unwrap(),
    {
        let ghost s = self@;
        if space {
            if let Some(start) = self.store.pop() {
                let end = self.position - char_len_utf8(ch);
                proof {
                    lemma_boundary(cmd@, start as nat);
                    lemma_boundary(cmd@, end as nat);
                }
                if start > end || !cmd.is_char_boundary(start) || !cmd.is_char_boundary(end) {
                    return false;
                }
                let word = byte_slice(cmd, start, end).to_owned();
                self.parts.push(Token::Word(word));
                assert(self@.parts =~= s.parts.push(
                    SpecToken::Word(word_at(cmd@, start as nat, end as nat).unwrap()),
                ));
                assert(self@.store =~= s.store.drop_last());
            }
            self._state = LexerState::Nomarl;
        } else {
            self._state = LexerState::InWord;
        }
        true
    }

    /// Handles a character read in the normal state.
    fn lexar_nomal(&mut self, _cmd: &str, ch: char) -> (r: Result<(), String>)
        requires
            alphanumeric_char(ch) ==> old(self)@.position >= len_utf8(ch),
            on_normal(old(self)@, ch, alphanumeric_char(ch), whitespace(ch)) is Some,
        ensures
            r is Ok,
            final(self)@ == on_normal(old(self)@, ch, alphanumeric_char(ch), whitespace(ch)).unwrap(),
    {
        let alnum = char_is_alphanumeric(ch);
        let space = char_is_whitespace(ch);
        let _ = self.accept_normal(ch, alnum, space);
        Ok(())
    }

    /// Handles a character read inside a word.
    fn lexar_inword(&mut self, cmd: &str, ch: char) -> (r: Result<(), String>)
        requires
            whitespace(ch) && old(self)@.store.len() > 0 ==> old(self)@.position >= len_utf8(ch),
            on_word(old(self)@, cmd@, ch, whitespace(ch)) is Some,
        ensures
            r is Ok,
            final(self)@ == on_word(old(self)@, cmd@, ch, whitespace(ch)).unwrap(),
    {
        let space = char_is_whitespace(ch);
        let _ = self.accept_in_word(cmd, ch, space);
        Ok(())
    }

    /// Handles a character read after one `&`.
    fn lexar_nextand(&mut self, _cmd: &str, ch: char) -> (r: Result<(), String>)
        requires
            ch == '&' ==> old(self)@.position >= len_utf8(ch),
        ensures
            r is Ok,
            final(self)@ == on_next_and(old(self)@, ch),
    {
        let ghost s = self@;
        if ch == '&' {
            self.parts.push(Token::And);
            self._state = LexerState::Nomarl;
            self.store.push(self.position - char_len_utf8(ch));
            assert(self@.parts =~= s.parts.push(SpecToken::And));
            assert(self@.store =~= s.store.push((s.position - len_utf8(ch)) as nat));
        }
        Ok(())
    }

    /// Turns the rest of `cmd`, from the byte offset already read on, into
    /// tokens, appends them to `parts` and returns all of `parts`.
    ///
    /// For `echo hello | grep h` a new lexer gives
    /// `[Word("echo"), Word("hello"), Pipe, Word("grep"), Word("h")]`.
    pub fn lexar_allocation(&mut self, cmd: &str) -> (r: Result<Vec<Token>, String>)
        requires
            lex_outcome(old(self)@, cmd@) is Some,
        ensures
            final(self)@ == lex_outcome(old(self)@, cmd@).unwrap(),
            r is Ok,
            tokens_view(r.unwrap()@) == final(self)@.parts,
    {
        let ghost s0 = self@;
        let len = byte_len(cmd);
        while self.position < len
            invariant
                len == encode_utf8(cmd@).len(),
                run(self@, cmd@) == run(s0, cmd@),
                lex_outcome(s0, cmd@) is Some,
            decreases len - self.position,
        {
            let ghost s = self@;
            proof {
                lemma_step_advances(s, cmd@);
                lemma_char_index(cmd@, s.position);
                lemma_split_encoding(cmd@, cmd@.len() as int);
            }
            let ch = self.new_state(cmd).unwrap();
            match self._state {
                LexerState::Nomarl => self.lexar_nomal(cmd, ch).unwrap(),
                LexerState::InWord => self.lexar_inword(cmd, ch).unwrap(),
                LexerState::InNextAnd => self.lexar_nextand(cmd, ch).unwrap(),
            }
            assert(step(s, cmd@) == Some(self@));
        }
        if self._state == LexerState::InWord {
            let ghost s = self@;
            let start = self.store.pop().unwrap();
            let word = byte_slice(cmd, start, self.position).to_owned();
            self.parts.push(Token::Word(word));
            assert(self@.parts =~= s.parts.push(
                SpecToken::Word(word_at(cmd@, start as nat, s.position).unwrap()),
            ));
            assert(self@.store =~= s.store.drop_last());
        }
        let parts = self.parts.clone();
        assert(tokens_view(parts@) =~= tokens_view(self.parts@));
        Ok(parts)
    }

    /// Whether a new lexer lexes all of `cmd`.
    fn accepts(cmd: &str) -> (r: bool)
        ensures
            r == lex_outcome(initial(), cmd@) is Some,
    {
        let mut probe = Lexer::new();
        let len = byte_len(cmd);
        while probe.position < len
            invariant
                len == encode_utf8(cmd@).len(),
                run(probe@, cmd@) == run(initial(), cmd@),
            decreases len - probe.position,
        {
            let ghost s = probe@;
            proof {
                lemma_boundary(cmd@, s.position);
                lemma_step_advances(s, cmd@);
                lemma_char_index(cmd@, s.position);
                lemma_split_encoding(cmd@, cmd@.len() as int);
            }
            if !cmd.is_char_boundary(probe.position) {
                return false;
            }
            let ch = probe.new_state(cmd).unwrap();
            let ok = match probe._state {
                LexerState::Nomarl => {
                    let alnum = char_is_alphanumeric(ch);
                    let space = char_is_whitespace(ch);
                    probe.accept_normal(ch, alnum, space)
                },
                LexerState::InWord => {
                    let space = char_is_whitespace(ch);
                    probe.accept_in_word(cmd, ch, space)
                },
                LexerState::InNextAnd => {
                    let _ = probe.lexar_nextand(cmd, ch);
                    true
                },
            };
            if !ok {
                return false;
            }
            assert(step(s, cmd@) == Some(probe@));
        }
        if probe._state == LexerState::InWord {
            let n = probe.store.len();
            if n == 0 {
                return false;
            }
            let start = probe.store[n - 1];
            proof {
                lemma_boundary(cmd@, start as nat);
                lemma_boundary(cmd@, probe@.position);
            }
            start <= probe.position && cmd.is_char_boundary(start) && cmd.is_char_boundary(probe.position)
        } else {
            true
        }
    }
}

/// Lexes `cmd` with a new lexer: the tokens of [`Lexer::lexar_allocation`],
/// or `None` exactly where that lexing cannot complete (a character in the
/// normal state that is neither alphanumeric, `|`, `&` nor whitespace).
pub fn lex(cmd: &str) -> (r: Option<Vec<Token>>)
    ensures
        match lex_outcome(initial(), cmd@) {
            Some(s) => r is Some && tokens_view(r.unwrap()@) == s.parts,
            None => r is None,
        },
{
    if Lexer::accepts(cmd) {
        let mut lexer = Lexer::new();
        match lexer.lexar_allocation(cmd) {
            Ok(tokens) => Some(tokens),
            Err(_) => None,
        }
    } else {
        None
    }
}

} // verus!
