use vstd::prelude::*;
use crate::lexer::Token;

verus! {

/// A node of the syntax tree: the grammar's `Object`.
#[derive(Debug, PartialEq)]
pub enum Object {
    DS(Box<DictStart>),
    AS(Box<ArrayStart>),
    StringVal(String),
    Number(String),
    Bool(bool),
    Null,
}

/// The members of an object: empty, or a first key and value.
#[derive(Debug, PartialEq)]
pub enum DictStart {
    Entry(String, Object, Box<DictEntry>),
    Nil,
}

/// The members of an object after the first, each introduced by a comma.
#[derive(Debug, PartialEq)]
pub enum DictEntry {
    Entry(String, Object, Box<DictEntry>),
    Nil,
}

/// The elements of an array: empty, or a first element.
#[derive(Debug, PartialEq)]
pub enum ArrayStart {
    Entry(Object, Box<ArrayEntry>),
    Nil,
}

/// The elements of an array after the first, each introduced by a comma.
#[derive(Debug, PartialEq)]
pub enum ArrayEntry {
    Entry(Object, Box<ArrayEntry>),
    Nil,
}

/// What the parser was looking for when it met a token it could not use.
#[derive(PartialEq, Eq, Structural, Debug, Clone, Copy)]
pub enum Expected {
    Value,
    KeyOrCloseBrace,
    Key,
    Colon,
    CommaOrCloseBrace,
    CloseBrace,
    ValueOrCloseBracket,
    CommaOrCloseBracket,
    CloseBracket,
    EndOfInput,
}

/// The kind of token that the parser met, or the end of the input.
#[derive(PartialEq, Eq, Structural, Debug, Clone, Copy)]
pub enum Found {
    Comma,
    OCB,
    CCB,
    OB,
    CB,
    Colon,
    Number,
    StringVal,
    Bool,
    Null,
    EndOfInput,
}

/// A grammar fault: the index of the offending token (the number of tokens
/// when the input ended too early), what was expected there and what was found.
#[derive(PartialEq, Eq, Structural, Debug, Clone, Copy)]
pub struct GrammarError {
    pub position: usize,
    pub expected: Expected,
    pub found: Found,
}

/// A persistent singly linked list.
#[derive(Debug)]
pub enum List<T> {
    Cons(T, Box<List<T>>),
    Nil,
}

impl<T> List<T> {
    /// The elements of the list, front first.
    pub open spec fn view(&self) -> Seq<T>
        decreases self,
    {
        match self {
            List::Cons(x, rest) => seq![*x] + rest.view(),
            List::Nil => Seq::empty(),
        }
    }

    pub fn new() -> (r: List<T>)
        ensures
            r@ == Seq::<T>::empty(),
    {
        List::Nil
    }

    pub fn first(&self) -> (r: &T)
        requires
            self@.len() > 0,
        ensures
            *r == self@[0],
    {
        match self {
            List::Cons(val, _) => val,
            List::Nil => {
                proof {
                    assert(self@.len() == 0);
                }
                unreached()
            },
        }
    }

    pub fn rest(&self) -> (r: &List<T>)
        requires
            self@.len() > 0,
        ensures
            r@ == self@.drop_first(),
    {
        match self {
            List::Cons(_, rest) => {
                assert(self@.drop_first() =~= rest@);
                rest
            },
            List::Nil => unreached(),
        }
    }

    pub fn prepend(self, elem: T) -> (r: List<T>)
        ensures
            r@ == seq![elem] + self@,
    {
        List::Cons(elem, Box::new(self))
    }
}


pub open spec fn kind_of(t: Token) -> Found {
    match t {
        Token::Comma => Found::Comma,
        Token::OCB => Found::OCB,
        Token::CCB => Found::CCB,
        Token::OB => Found::OB,
        Token::CB => Found::CB,
        Token::Colon => Found::Colon,
        Token::Number(_) => Found::Number,
        Token::StringVal(_) => Found::StringVal,
        Token::Bool(_) => Found::Bool,
        Token::Null => Found::Null,
    }
}

pub open spec fn found_at(t: Seq<Token>, p: int) -> Found {
    if 0 <= p < t.len() {
        kind_of(t[p])
    } else {
        Found::EndOfInput
    }
}

pub open spec fn gerr(t: Seq<Token>, p: int, e: Expected) -> GrammarError {
    GrammarError { position: p as usize, expected: e, found: found_at(t, p) }
}

fn fault(t: &Vec<Token>, p: usize, e: Expected) -> (r: GrammarError)
    ensures
        r == gerr(t@, p as int, e),
{
    let found = if p < t.len() {
        match &t[p] {
            Token::Comma => Found::Comma,
            Token::OCB => Found::OCB,
            Token::CCB => Found::CCB,
            Token::OB => Found::OB,
            Token::CB => Found::CB,
            Token::Colon => Found::Colon,
            Token::Number(_) => Found::Number,
            Token::StringVal(_) => Found::StringVal,
            Token::Bool(_) => Found::Bool,
            Token::Null => Found::Null,
        }
    } else {
        Found::EndOfInput
    };
    GrammarError { position: p, expected: e, found }
}

pub open spec fn starts_value(t: Token) -> bool {
    t is OCB || t is OB || t is StringVal || t is Number || t is Bool || t is Null
}

// The grammar, one spec function per nonterminal. Each reads the tokens from
// index `p` and gives the node and the index after it, or the first fault.
// A sub-parse that consumed nothing would be refused (`p < q`); that never
// happens, and the comparison only makes the recursion visibly well-founded.

pub open spec fn p_object(t: Seq<Token>, p: int) -> Result<(Object, int), GrammarError>
    decreases t.len() + 1 - p, 1nat,
{
    if p < 0 || p >= t.len() {
        Err(gerr(t, p, Expected::Value))
    } else {
        match t[p] {
            Token::OCB => match p_dict_start(t, p + 1) {
                Ok((d, q)) => if 0 <= q < t.len() && t[q] is CCB {
                    Ok((Object::DS(Box::new(d)), q + 1))
                } else {
                    Err(gerr(t, q, Expected::CloseBrace))
                },
                Err(e) => Err(e),
            },
            Token::OB => match p_array_start(t, p + 1) {
                Ok((a, q)) => if 0 <= q < t.len() && t[q] is CB {
                    Ok((Object::AS(Box::new(a)), q + 1))
                } else {
                    Err(gerr(t, q, Expected::CloseBracket))
                },
                Err(e) => Err(e),
            },
            Token::StringVal(s) => Ok((Object::StringVal(s), p + 1)),
            Token::Number(s) => Ok((Object::Number(s), p + 1)),
            Token::Bool(b) => Ok((Object::Bool(b), p + 1)),
            Token::Null => Ok((Object::Null, p + 1)),
            _ => Err(gerr(t, p, Expected::Value)),
        }
    }
}

pub open spec fn p_dict_start(t: Seq<Token>, p: int) -> Result<(DictStart, int), GrammarError>
    decreases t.len() + 1 - p, 0nat,
{
    if p < 0 || p >= t.len() {
        Err(gerr(t, p, Expected::KeyOrCloseBrace))
    } else {
        match t[p] {
            Token::StringVal(k) => if p + 1 < t.len() && t[p + 1] is Colon {
                match p_object(t, p + 2) {
                    Ok((o, q)) => if p < q <= t.len() {
                        match p_dict_entry(t, q) {
                            Ok((e, r)) => Ok((DictStart::Entry(k, o, Box::new(e)), r)),
                            Err(e) => Err(e),
                        }
                    } else {
                        Err(gerr(t, q, Expected::Value))
                    },
                    Err(e) => Err(e),
                }
            } else {
                Err(gerr(t, p + 1, Expected::Colon))
            },
            Token::CCB => Ok((DictStart::Nil, p)),
            _ => Err(gerr(t, p, Expected::KeyOrCloseBrace)),
        }
    }
}

pub open spec fn p_dict_entry(t: Seq<Token>, p: int) -> Result<(DictEntry, int), GrammarError>
    decreases t.len() + 1 - p, 0nat,
{
    if p < 0 || p >= t.len() {
        Err(gerr(t, p, Expected::CommaOrCloseBrace))
    } else {
        match t[p] {
            Token::Comma => if p + 1 < t.len() && t[p + 1] is StringVal {
                if p + 2 < t.len() && t[p + 2] is Colon {
                    match p_object(t, p + 3) {
                        Ok((o, q)) => if p < q <= t.len() {
                            match p_dict_entry(t, q) {
                                Ok((e, r)) => Ok(
                                    (DictEntry::Entry(t[p + 1]->StringVal_0, o, Box::new(e)), r),
                                ),
                                Err(e) => Err(e),
                            }
                        } else {
                            Err(gerr(t, q, Expected::Value))
                        },
                        Err(e) => Err(e),
                    }
                } else {
                    Err(gerr(t, p + 2, Expected::Colon))
                }
            } else {
                Err(gerr(t, p + 1, Expected::Key))
            },
            Token::CCB => Ok((DictEntry::Nil, p)),
            _ => Err(gerr(t, p, Expected::CommaOrCloseBrace)),
        }
    }
}

pub open spec fn p_array_start(t: Seq<Token>, p: int) -> Result<(ArrayStart, int), GrammarError>
    decreases t.len() + 1 - p, 2nat,
{
    if p < 0 || p >= t.len() {
        Err(gerr(t, p, Expected::ValueOrCloseBracket))
    } else if starts_value(t[p]) {
        match p_object(t, p) {
            Ok((o, q)) => if p < q <= t.len() {
                match p_array_entry(t, q) {
                    Ok((e, r)) => Ok((ArrayStart::Entry(o, Box::new(e)), r)),
                    Err(e) => Err(e),
                }
            } else {
                Err(gerr(t, q, Expected::Value))
            },
            Err(e) => Err(e),
        }
    } else if t[p] is CB {
        Ok((ArrayStart::Nil, p))
    } else {
        Err(gerr(t, p, Expected::ValueOrCloseBracket))
    }
}

pub open spec fn p_array_entry(t: Seq<Token>, p: int) -> Result<(ArrayEntry, int), GrammarError>
    decreases t.len() + 1 - p, 0nat,
{
    if p < 0 || p >= t.len() {
        Err(gerr(t, p, Expected::CommaOrCloseBracket))
    } else {
        match t[p] {
            Token::Comma => match p_object(t, p + 1) {
                Ok((o, q)) => if p < q <= t.len() {
                    match p_array_entry(t, q) {
                        Ok((e, r)) => Ok((ArrayEntry::Entry(o, Box::new(e)), r)),
                        Err(e) => Err(e),
                    }
                } else {
                    Err(gerr(t, q, Expected::Value))
                },
                Err(e) => Err(e),
            },
            Token::CB => Ok((ArrayEntry::Nil, p)),
            _ => Err(gerr(t, p, Expected::CommaOrCloseBracket)),
        }
    }
}

/// An executable parse result agrees with the grammar's, and moves forward.
pub open spec fn agrees<X>(
    r: Result<(X, usize), GrammarError>,
    s: Result<(X, int), GrammarError>,
    p: int,
    n: int,
) -> bool {
    (match s {
        Ok((x, q)) => r is Ok && r->Ok_0.0 == x && r->Ok_0.1 == q,
        Err(e) => r == Err::<(X, usize), GrammarError>(e),
    }) && (r is Ok ==> p <= r->Ok_0.1 <= n)
}

fn parse_object(t: &Vec<Token>, p: usize) -> (r: Result<(Object, usize), GrammarError>)
    requires
        p <= t@.len(),
    ensures
        agrees(r, p_object(t@, p as int), p as int + 1, t@.len() as int),
    decreases t@.len() + 1 - p, 1nat,
{
    if p >= t.len() {
        return Err(fault(t, p, Expected::Value));
    }
    match &t[p] {
        Token::OCB => {
            let (d, q) = parse_dict_start(t, p + 1)?;
            if q < t.len() && matches!(t[q], Token::CCB) {
                Ok((Object::DS(Box::new(d)), q + 1))
            } else {
                Err(fault(t, q, Expected::CloseBrace))
            }
        },
        Token::OB => {
            let (a, q) = parse_array_start(t, p + 1)?;
            if q < t.len() && matches!(t[q], Token::CB) {
                Ok((Object::AS(Box::new(a)), q + 1))
            } else {
                Err(fault(t, q, Expected::CloseBracket))
            }
        },
        Token::StringVal(s) => Ok((Object::StringVal(s.clone()), p + 1)),
        Token::Number(s) => Ok((Object::Number(s.clone()), p + 1)),
        Token::Bool(b) => Ok((Object::Bool(*b), p + 1)),
        Token::Null => Ok((Object::Null, p + 1)),
        _ => Err(fault(t, p, Expected::Value)),
    }
}

fn parse_dict_start(t: &Vec<Token>, p: usize) -> (r: Result<(DictStart, usize), GrammarError>)
    requires
        p <= t@.len(),
    ensures
        agrees(r, p_dict_start(t@, p as int), p as int, t@.len() as int),
    decreases t@.len() + 1 - p, 0nat,
{
    if p >= t.len() {
        return Err(fault(t, p, Expected::KeyOrCloseBrace));
    }
    match &t[p] {
        Token::StringVal(k) => {
            if !(p + 1 < t.len() && matches!(t[p + 1], Token::Colon)) {
                return Err(fault(t, p + 1, Expected::Colon));
            }
            let (o, q) = parse_object(t, p + 2)?;
            let (e, r) = parse_dict_entry(t, q)?;
            Ok((DictStart::Entry(k.clone(), o, Box::new(e)), r))
        },
        Token::CCB => Ok((DictStart::Nil, p)),
        _ => Err(fault(t, p, Expected::KeyOrCloseBrace)),
    }
}

fn parse_dict_entry(t: &Vec<Token>, p: usize) -> (r: Result<(DictEntry, usize), GrammarError>)
    requires
        p <= t@.len(),
    ensures
        agrees(r, p_dict_entry(t@, p as int), p as int, t@.len() as int),
    decreases t@.len() + 1 - p, 0nat,
{
    if p >= t.len() {
        return Err(fault(t, p, Expected::CommaOrCloseBrace));
    }
    match &t[p] {
        Token::Comma => {
            let key = if p + 1 < t.len() {
                match &t[p + 1] {
                    Token::StringVal(k) => k.clone(),
                    _ => return Err(fault(t, p + 1, Expected::Key)),
                }
            } else {
                return Err(fault(t, p + 1, Expected::Key));
            };
            if !(p + 2 < t.len() && matches!(t[p + 2], Token::Colon)) {
                return Err(fault(t, p + 2, Expected::Colon));
            }
            let (o, q) = parse_object(t, p + 3)?;
            let (e, r) = parse_dict_entry(t, q)?;
            Ok((DictEntry::Entry(key, o, Box::new(e)), r))
        },
        Token::CCB => Ok((DictEntry::Nil, p)),
        _ => Err(fault(t, p, Expected::CommaOrCloseBrace)),
    }
}

fn parse_array_start(t: &Vec<Token>, p: usize) -> (r: Result<(ArrayStart, usize), GrammarError>)
    requires
        p <= t@.len(),
    ensures
        agrees(r, p_array_start(t@, p as int), p as int, t@.len() as int),
    decreases t@.len() + 1 - p, 2nat,
{
    if p >= t.len() {
        return Err(fault(t, p, Expected::ValueOrCloseBracket));
    }
    match &t[p] {
        Token::OB | Token::OCB | Token::StringVal(_) | Token::Number(_) | Token::Bool(_)
        | Token::Null => {
            let (o, q) = parse_object(t, p)?;
            let (e, r) = parse_array_entry(t, q)?;
            Ok((ArrayStart::Entry(o, Box::new(e)), r))
        },
        Token::CB => Ok((ArrayStart::Nil, p)),
        _ => Err(fault(t, p, Expected::ValueOrCloseBracket)),
    }
}

fn parse_array_entry(t: &Vec<Token>, p: usize) -> (r: Result<(ArrayEntry, usize), GrammarError>)
    requires
        p <= t@.len(),
    ensures
        agrees(r, p_array_entry(t@, p as int), p as int, t@.len() as int),
    decreases t@.len() + 1 - p, 0nat,
{
    if p >= t.len() {
        return Err(fault(t, p, Expected::CommaOrCloseBracket));
    }
    match &t[p] {
        Token::Comma => {
            let (o, q) = parse_object(t, p + 1)?;
            let (e, r) = parse_array_entry(t, q)?;
            Ok((ArrayEntry::Entry(o, Box::new(e)), r))
        },
        Token::CB => Ok((ArrayEntry::Nil, p)),
        _ => Err(fault(t, p, Expected::CommaOrCloseBracket)),
    }
}

/// The syntax tree of the one value that the tokens make up, or the first
/// grammar fault; a token after that value is a fault too.
pub open spec fn parse_spec(t: Seq<Token>) -> Result<Object, GrammarError> {
    match p_object(t, 0) {
        Ok((o, q)) => if q == t.len() {
            Ok(o)
        } else {
            Err(gerr(t, q, Expected::EndOfInput))
        },
        Err(e) => Err(e),
    }
}

pub fn parse(tokenvec: &Vec<Token>) -> (r: Result<Object, GrammarError>)
    ensures
        r == parse_spec(tokenvec@),
{
    match parse_object(tokenvec, 0) {
        Ok((o, q)) => if q == tokenvec.len() {
            Ok(o)
        } else {
            Err(fault(tokenvec, q, Expected::EndOfInput))
        },
        Err(e) => Err(e),
    }
}

} // verus!
