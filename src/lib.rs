use vstd::prelude::*;

pub mod jsondata;
pub mod lexer;
pub mod parser;
pub mod compiler;

use crate::compiler::{compile, lemma_object_views, reduce, same_tokens};
use crate::jsondata::{Json, JSONVal};
use crate::lexer::{lex, lex_spec, toks_view, LexError, Tok, Token};
use crate::parser::{parse, parse_spec, GrammarError};

verus! {

/// Why a text could not be decoded.
#[derive(PartialEq, Eq, Structural, Debug, Clone, Copy)]
pub enum DecodeError {
    Lex(LexError),
    Grammar(GrammarError),
}

/// Some token sequence whose model is `ts`. The grammar reads tokens only
/// through their models (see `lemma_object_views`), so which one is taken
/// does not matter.
pub open spec fn tokens_for(ts: Seq<Tok>) -> Seq<Token> {
    choose|t: Seq<Token>| toks_view(t) == ts
}

/// What decoding the text `s` gives: the model of its value, or the first fault.
pub open spec fn decode_spec(s: Seq<char>) -> Result<Json, DecodeError> {
    match lex_spec(s) {
        Err(e) => Err(DecodeError::Lex(e)),
        Ok(ts) => match parse_spec(tokens_for(ts)) {
            Err(g) => Err(DecodeError::Grammar(g)),
            Ok(o) => Ok(reduce(o)),
        },
    }
}

/// `r` is a result of decoding the text `s`.
pub open spec fn decodes_to(s: Seq<char>, r: Result<JSONVal, DecodeError>) -> bool {
    match decode_spec(s) {
        Ok(j) => r is Ok && r->Ok_0.denotes(j),
        Err(e) => r == Err::<JSONVal, DecodeError>(e),
    }
}

/// Two values are deeply equal: they have one model.
pub open spec fn deep_equal(a: JSONVal, b: JSONVal) -> bool {
    exists|j: Json| a.denotes(j) && b.denotes(j)
}

/// Decodes a JSON text: tokens, then a syntax tree, then the value tree,
/// stopping at the first fault. The text must hold exactly one value.
/// Strings have no escape sequences: a backslash is copied as it is, and
/// the first quote after the opening one closes the string.
pub fn parse_json(json: String) -> (r: Result<JSONVal, DecodeError>)
    ensures
        decodes_to(json@, r),
{
    let ghost text = json@;
    match lex(json) {
        Ok(tokenvec) => {
            proof {
                let ts = toks_view(tokenvec@);
                let t = tokens_for(ts);
                assert(toks_view(t) == ts);
                assert forall|i: int| 0 <= i < tokenvec@.len() implies tokenvec@[i]@ == t[i]@ by {
                    assert(toks_view(tokenvec@)[i] == toks_view(t)[i]);
                }
                assert(same_tokens(tokenvec@, t));
                lemma_object_views(tokenvec@, t, 0);
            }
            match parse(&tokenvec) {
                Ok(obj) => Ok(compile(&obj)),
                Err(g) => Err(DecodeError::Grammar(g)),
            }
        },
        Err(e) => Err(DecodeError::Lex(e)),
    }
}

/// Decoding one text twice gives the same outcome: the same fault, or two
/// deeply equal values.
pub proof fn lemma_decode_twice(
    s: Seq<char>,
    r1: Result<JSONVal, DecodeError>,
    r2: Result<JSONVal, DecodeError>,
)
    requires
        decodes_to(s, r1),
        decodes_to(s, r2),
    ensures
        r1 is Ok <==> r2 is Ok,
        r1 is Err ==> r1 == r2,
        r1 is Ok ==> deep_equal(r1->Ok_0, r2->Ok_0),
{
    if let Ok(j) = decode_spec(s) {
        assert(r1->Ok_0.denotes(j) && r2->Ok_0.denotes(j));
    }
}

} // verus!
