use vstd::prelude::*;
use vstd::string::StringExecFns;
use vstd::string::StrSliceExecFns;
use vstd::std_specs::iter::IteratorSpec;

verus! {

/// One lexical unit. A number keeps the text of its literal, which is known
/// to be a well-formed decimal floating-point literal.
#[derive(PartialEq, Debug)]
pub enum Token {
    Comma,
    OCB,
    CCB,
    OB,
    CB,
    Colon,
    Number(String),
    StringVal(String),
    Bool(bool),
    Null,
}

/// The mathematical model of a token: strings become character sequences.
pub enum Tok {
    Comma,
    OCB,
    CCB,
    OB,
    CB,
    Colon,
    Number(Seq<char>),
    StringVal(Seq<char>),
    Bool(bool),
    Null,
}

impl View for Token {
    type V = Tok;

    open spec fn view(&self) -> Tok {
        match self {
            Token::Comma => Tok::Comma,
            Token::OCB => Tok::OCB,
            Token::CCB => Tok::CCB,
            Token::OB => Tok::OB,
            Token::CB => Tok::CB,
            Token::Colon => Tok::Colon,
            Token::Number(s) => Tok::Number(s@),
            Token::StringVal(s) => Tok::StringVal(s@),
            Token::Bool(b) => Tok::Bool(*b),
            Token::Null => Tok::Null,
        }
    }
}

pub open spec fn toks_view(ts: Seq<Token>) -> Seq<Tok> {
    ts.map_values(|t: Token| t@)
}

#[derive(PartialEq, Eq, Structural, Debug, Clone, Copy)]
pub enum LexErrorType {
    NumError,
    InvalidSymbol,
}

/// A lexical fault: its kind and the 0-based line on which it was found.
#[derive(PartialEq, Eq, Structural, Debug, Clone, Copy)]
pub struct LexError {
    pub err: LexErrorType,
    pub lineno: u64,
}

#[derive(PartialEq, Eq, Structural, Debug, Clone, Copy)]
pub enum LexMode {
    Normal,
    InString,
    InNumber,
    InSymbol,
}

/// The tokenizer's state after some prefix of the input: the pending
/// characters of a string, number or word, the line counter and the tokens
/// emitted so far.
pub struct LexState {
    pub mode: LexMode,
    pub buf: Seq<char>,
    pub line: nat,
    pub toks: Seq<Tok>,
}

pub open spec fn is_digit(c: char) -> bool {
    '0' <= c <= '9'
}

pub open spec fn is_lower(c: char) -> bool {
    'a' <= c <= 'z'
}

pub open spec fn is_punct(c: char) -> bool {
    c == ',' || c == '{' || c == '}' || c == '[' || c == ']' || c == ':'
}

pub open spec fn punct_tok(c: char) -> Tok {
    if c == ',' {
        Tok::Comma
    } else if c == '{' {
        Tok::OCB
    } else if c == '}' {
        Tok::CCB
    } else if c == '[' {
        Tok::OB
    } else if c == ']' {
        Tok::CB
    } else {
        Tok::Colon
    }
}

/// Characters that end a number; the structural ones among them are tokens too.
pub open spec fn ends_number(c: char) -> bool {
    c == ',' || c == ']' || c == '}'
}

/// Characters that end a word; the structural ones among them are tokens too.
pub open spec fn ends_word(c: char) -> bool {
    c == ',' || c == ']' || c == '}' || c == ':'
}

pub open spec fn is_space(c: char) -> bool {
    c == ' ' || c == '\n'
}

pub open spec fn is_number_char(c: char) -> bool {
    is_digit(c) || c == 'e' || c == 'E' || c == '.' || c == '+' || c == '-'
}

/// The floating-point literal grammar
/// `[+-]? (D+ | D+ '.' D* | D* '.' D+) ([eE] [+-]? D+)?`
/// as an automaton. States: 0 start, 1 after the sign, 2 integer digits,
/// 3 a point with no digit before it, 4 fraction, 5 after the exponent mark,
/// 6 after the exponent's sign, 7 exponent digits, 8 rejected.
pub open spec fn num_step(q: u8, c: char) -> u8 {
    if q == 0 && (c == '+' || c == '-') {
        1
    } else if (q == 0 || q == 1 || q == 2) && is_digit(c) {
        2
    } else if (q == 0 || q == 1) && c == '.' {
        3
    } else if (q == 2 || q == 3 || q == 4) && (c == '.' && q == 2 || is_digit(c) && q != 2) {
        4
    } else if (q == 2 || q == 4) && (c == 'e' || c == 'E') {
        5
    } else if q == 5 && (c == '+' || c == '-') {
        6
    } else if (q == 5 || q == 6 || q == 7) && is_digit(c) {
        7
    } else {
        8
    }
}

pub open spec fn num_run(s: Seq<char>) -> u8
    decreases s.len(),
{
    if s.len() == 0 {
        0
    } else {
        num_step(num_run(s.drop_last()), s.last())
    }
}

pub open spec fn num_accepts(q: u8) -> bool {
    q == 2 || q == 4 || q == 7
}

/// Whether `s` is a well-formed decimal floating-point literal.
pub open spec fn valid_number(s: Seq<char>) -> bool {
    num_accepts(num_run(s))
}

/// The token that a finished word stands for, if any.
pub open spec fn word_tok(w: Seq<char>) -> Option<Tok> {
    if w == seq!['t', 'r', 'u', 'e'] {
        Some(Tok::Bool(true))
    } else if w == seq!['f', 'a', 'l', 's', 'e'] {
        Some(Tok::Bool(false))
    } else if w == seq!['n', 'u', 'l', 'l'] {
        Some(Tok::Null)
    } else {
        None
    }
}

pub open spec fn fault(kind: LexErrorType, line: nat) -> LexError {
    LexError { err: kind, lineno: line as u64 }
}

/// Back to normal mode with the tokens `toks`; `c` ended what was pending,
/// and a newline there starts the next line.
pub open spec fn with_toks(st: LexState, toks: Seq<Tok>, c: char) -> LexState {
    LexState { mode: LexMode::Normal, buf: st.buf, line: if c == '\n' { st.line + 1 } else { st.line }, toks }
}

pub open spec fn enter(st: LexState, mode: LexMode, buf: Seq<char>) -> LexState {
    LexState { mode, buf, line: st.line, toks: st.toks }
}

/// One character of input through the tokenizer.
pub open spec fn lex_step(st: LexState, c: char) -> Result<LexState, LexError> {
    match st.mode {
        LexMode::Normal => {
            if is_punct(c) {
                Ok(with_toks(st, st.toks.push(punct_tok(c)), c))
            } else if c == '"' {
                Ok(enter(st, LexMode::InString, Seq::empty()))
            } else if c == '-' || c == '+' || is_digit(c) {
                Ok(enter(st, LexMode::InNumber, seq![c]))
            } else if c == '\n' {
                Ok(LexState { mode: LexMode::Normal, buf: st.buf, line: st.line + 1, toks: st.toks })
            } else if is_lower(c) {
                Ok(enter(st, LexMode::InSymbol, seq![c]))
            } else if c == ' ' {
                Ok(st)
            } else {
                Err(fault(LexErrorType::InvalidSymbol, st.line))
            }
        },
        LexMode::InString => {
            if c == '"' {
                Ok(with_toks(st, st.toks.push(Tok::StringVal(st.buf)), c))
            } else {
                Ok(
                    LexState {
                        mode: LexMode::InString,
                        buf: st.buf.push(c),
                        line: if c == '\n' { st.line + 1 } else { st.line },
                        toks: st.toks,
                    },
                )
            }
        },
        LexMode::InNumber => {
            if ends_number(c) || is_space(c) {
                if valid_number(st.buf) {
                    let t = st.toks.push(Tok::Number(st.buf));
                    Ok(with_toks(st, if ends_number(c) { t.push(punct_tok(c)) } else { t }, c))
                } else {
                    Err(fault(LexErrorType::NumError, st.line))
                }
            } else if is_number_char(c) {
                Ok(enter(st, LexMode::InNumber, st.buf.push(c)))
            } else {
                Err(fault(LexErrorType::NumError, st.line))
            }
        },
        LexMode::InSymbol => {
            if ends_word(c) || is_space(c) {
                match word_tok(st.buf) {
                    Some(w) => {
                        let t = st.toks.push(w);
                        Ok(with_toks(st, if ends_word(c) { t.push(punct_tok(c)) } else { t }, c))
                    },
                    None => Err(fault(LexErrorType::InvalidSymbol, st.line)),
                }
            } else if is_lower(c) {
                Ok(enter(st, LexMode::InSymbol, st.buf.push(c)))
            } else {
                Err(fault(LexErrorType::InvalidSymbol, st.line))
            }
        },
    }
}

pub open spec fn lex_start() -> LexState {
    LexState { mode: LexMode::Normal, buf: Seq::empty(), line: 0, toks: Seq::empty() }
}

/// The tokenizer's state after the first `n` characters of `s`, or the first fault.
pub open spec fn lex_run(s: Seq<char>, n: int) -> Result<LexState, LexError>
    decreases n,
{
    if n <= 0 {
        Ok(lex_start())
    } else {
        match lex_run(s, n - 1) {
            Ok(st) => lex_step(st, s[n - 1]),
            Err(e) => Err(e),
        }
    }
}

/// The end of the input finishes a pending number or word; a string still
/// open there is a fault.
pub open spec fn lex_finish(st: LexState) -> Result<Seq<Tok>, LexError> {
    match st.mode {
        LexMode::Normal => Ok(st.toks),
        LexMode::InString => Err(fault(LexErrorType::InvalidSymbol, st.line)),
        LexMode::InNumber => if valid_number(st.buf) {
            Ok(st.toks.push(Tok::Number(st.buf)))
        } else {
            Err(fault(LexErrorType::NumError, st.line))
        },
        LexMode::InSymbol => match word_tok(st.buf) {
            Some(w) => Ok(st.toks.push(w)),
            None => Err(fault(LexErrorType::InvalidSymbol, st.line)),
        },
    }
}

/// The tokens of `s`, or its first lexical fault with the 0-based line on
/// which it was found (the number of newlines before that point).
///
/// Strings have no escape sequences: every character between two quotes,
/// a backslash or a newline included, is copied as it is, and the first
/// quote after the opening one closes the string, also after a backslash.
pub open spec fn lex_spec(s: Seq<char>) -> Result<Seq<Tok>, LexError> {
    match lex_run(s, s.len() as int) {
        Ok(st) => lex_finish(st),
        Err(e) => Err(e),
    }
}

proof fn lemma_fault_stays(s: Seq<char>, i: int, n: int)
    requires
        0 <= i <= n,
        lex_run(s, i) is Err,
    ensures
        lex_run(s, n) == lex_run(s, i),
    decreases n - i,
{
    if i < n {
        lemma_fault_stays(s, i, n - 1);
    }
}

fn const_to_token(c: char) -> (r: Token)
    requires
        is_punct(c),
    ensures
        r@ == punct_tok(c),
{
    if c == ',' {
        Token::Comma
    } else if c == '{' {
        Token::OCB
    } else if c == '}' {
        Token::CCB
    } else if c == '[' {
        Token::OB
    } else if c == ']' {
        Token::CB
    } else {
        Token::Colon
    }
}

fn next_num_state(q: u8, c: char) -> (r: u8)
    ensures
        r == num_step(q, c),
{
    let digit = '0' <= c && c <= '9';
    if q == 0 && (c == '+' || c == '-') {
        1
    } else if (q == 0 || q == 1 || q == 2) && digit {
        2
    } else if (q == 0 || q == 1) && c == '.' {
        3
    } else if (q == 2 || q == 3 || q == 4) && (c == '.' && q == 2 || digit && q != 2) {
        4
    } else if (q == 2 || q == 4) && (c == 'e' || c == 'E') {
        5
    } else if q == 5 && (c == '+' || c == '-') {
        6
    } else if (q == 5 || q == 6 || q == 7) && digit {
        7
    } else {
        8
    }
}

fn word_to_token(w: &str) -> (r: Option<Token>)
    ensures
        match word_tok(w@) {
            Some(t) => r is Some && r->Some_0@ == t,
            None => r is None,
        },
{
    let s = String::from_str(w);
    let t = String::from_str("true");
    let f = String::from_str("false");
    let n = String::from_str("null");
    proof {
        reveal_strlit("true");
        reveal_strlit("false");
        reveal_strlit("null");
        assert(t@ =~= seq!['t', 'r', 'u', 'e']);
        assert(f@ =~= seq!['f', 'a', 'l', 's', 'e']);
        assert(n@ =~= seq!['n', 'u', 'l', 'l']);
    }
    if s == t {
        Some(Token::Bool(true))
    } else if s == f {
        Some(Token::Bool(false))
    } else if s == n {
        Some(Token::Null)
    } else {
        None
    }
}

/// Splits the input into tokens. The result is exactly `lex_spec(input@)`.
pub fn lex(input: String) -> (r: Result<Vec<Token>, LexError>)
    ensures
        match lex_spec(input@) {
            Ok(ts) => r is Ok && toks_view(r->Ok_0@) == ts,
            Err(e) => r == Err::<Vec<Token>, LexError>(e),
        },
{
    broadcast use vstd::string::axiom_spec_iter, vstd::string::next_postcondition;

    let n = input.unicode_len();
    let mut chars = input.as_str().chars();
    let mut lexed: Vec<Token> = Vec::new();
    let mut mode = LexMode::Normal;
    let mut start: usize = 0;
    let mut numq: u8 = 0;
    let mut line: usize = 0;
    let mut i: usize = 0;
    while i < n
        invariant
            n == input@.len(),
            i <= n,
            lex_run(input@, i as int) is Ok,
            lex_run(input@, i as int)->Ok_0.mode == mode,
            lex_run(input@, i as int)->Ok_0.line == line,
            line <= i,
            start <= i,
            mode != LexMode::Normal ==> lex_run(input@, i as int)->Ok_0.buf == input@.subrange(
                start as int,
                i as int,
            ),
            mode == LexMode::InNumber ==> numq == num_run(lex_run(input@, i as int)->Ok_0.buf),
            toks_view(lexed@) == lex_run(input@, i as int)->Ok_0.toks,
            chars.obeys_prophetic_iter_laws(),
            IteratorSpec::remaining(&chars) == input@.skip(i as int),
        decreases n - i,
    {
        let ghost st = lex_run(input@, i as int)->Ok_0;
        let c = match chars.next() {
            Some(c) => c,
            None => unreached(),
        };
        assert(input@.skip(i as int).drop_first() =~= input@.skip(i + 1));
        let ghost next = lex_step(st, c);
        assert(lex_run(input@, i + 1) == next);
        let ghost start0 = start;
        proof {
            assert(st.buf.push(c).drop_last() =~= st.buf);
        }
        match mode {
            LexMode::Normal => {
                if c == ',' || c == '{' || c == '}' || c == '[' || c == ']' || c == ':' {
                    lexed.push(const_to_token(c));
                } else if c == '"' {
                    mode = LexMode::InString;
                    start = i + 1;
                } else if c == '-' || c == '+' || ('0' <= c && c <= '9') {
                    mode = LexMode::InNumber;
                    start = i;
                    numq = next_num_state(0, c);
                    proof {
                        assert(seq![c].drop_last() =~= Seq::<char>::empty());
                        assert(num_run(Seq::<char>::empty()) == 0);
                        assert(seq![c].last() == c);
                        assert(num_run(seq![c]) == num_step(0, c));
                    }
                } else if c == '\n' {
                    line = line + 1;
                } else if 'a' <= c && c <= 'z' {
                    mode = LexMode::InSymbol;
                    start = i;
                } else if c == ' ' {
                } else {
                    proof {
                        lemma_fault_stays(input@, i + 1, n as int);
                    }
                    return Err(LexError { err: LexErrorType::InvalidSymbol, lineno: line as u64 });
                }
            },
            LexMode::InString => {
                if c == '"' {
                    lexed.push(Token::StringVal(String::from_str(input.substring_char(start, i))));
                    mode = LexMode::Normal;
                } else if c == '\n' {
                    line = line + 1;
                }
            },
            LexMode::InNumber => {
                let delim = c == ',' || c == ']' || c == '}';
                if delim || c == ' ' || c == '\n' {
                    if numq == 2 || numq == 4 || numq == 7 {
                        lexed.push(Token::Number(String::from_str(input.substring_char(start, i))));
                        if delim {
                            lexed.push(const_to_token(c));
                        }
                        if c == '\n' {
                            line = line + 1;
                        }
                        mode = LexMode::Normal;
                    } else {
                        proof {
                            lemma_fault_stays(input@, i + 1, n as int);
                        }
                        return Err(LexError { err: LexErrorType::NumError, lineno: line as u64 });
                    }
                } else if ('0' <= c && c <= '9') || c == 'e' || c == 'E' || c == '.' || c == '+'
                    || c == '-' {
                    numq = next_num_state(numq, c);
                    assert(num_run(st.buf.push(c)) == numq);
                } else {
                    proof {
                        lemma_fault_stays(input@, i + 1, n as int);
                    }
                    return Err(LexError { err: LexErrorType::NumError, lineno: line as u64 });
                }
            },
            LexMode::InSymbol => {
                let delim = c == ',' || c == ']' || c == '}' || c == ':';
                if delim || c == ' ' || c == '\n' {
                    match word_to_token(input.substring_char(start, i)) {
                        Some(t) => {
                            lexed.push(t);
                            if delim {
                                lexed.push(const_to_token(c));
                            }
                            if c == '\n' {
                                line = line + 1;
                            }
                            mode = LexMode::Normal;
                        },
                        None => {
                            proof {
                                lemma_fault_stays(input@, i + 1, n as int);
                            }
                            return Err(
                                LexError { err: LexErrorType::InvalidSymbol, lineno: line as u64 },
                            );
                        },
                    }
                } else if !('a' <= c && c <= 'z') {
                    proof {
                        lemma_fault_stays(input@, i + 1, n as int);
                    }
                    return Err(LexError { err: LexErrorType::InvalidSymbol, lineno: line as u64 });
                }
            },
        }
        proof {
            let st2 = lex_run(input@, i + 1)->Ok_0;
            assert(input@.subrange(start0 as int, i + 1) =~= input@.subrange(
                start0 as int,
                i as int,
            ).push(c));
            assert(input@.subrange(i + 1, i + 1) =~= Seq::<char>::empty());
            assert(input@.subrange(i as int, i + 1) =~= seq![c]);
            assert(toks_view(lexed@) =~= st2.toks);
        }
        i += 1;
    }
    let ghost st = lex_run(input@, n as int)->Ok_0;
    match mode {
        LexMode::Normal => {},
        LexMode::InString => {
            return Err(LexError { err: LexErrorType::InvalidSymbol, lineno: line as u64 });
        },
        LexMode::InNumber => {
            if numq == 2 || numq == 4 || numq == 7 {
                lexed.push(Token::Number(String::from_str(input.substring_char(start, n))));
            } else {
                return Err(LexError { err: LexErrorType::NumError, lineno: line as u64 });
            }
        },
        LexMode::InSymbol => {
            match word_to_token(input.substring_char(start, n)) {
                Some(t) => lexed.push(t),
                None => {
                    return Err(LexError { err: LexErrorType::InvalidSymbol, lineno: line as u64 });
                },
            }
        },
    }
    assert(toks_view(lexed@) =~= lex_finish(st)->Ok_0);
    Ok(lexed)
}

} // verus!
