use json_decoder::compiler::compile;
use json_decoder::jsondata::{JSONVal, JsonObject};
use json_decoder::lexer::{lex, LexErrorType, Token};
use json_decoder::parser::{
    parse, ArrayEntry, ArrayStart, DictEntry, DictStart, Expected, Found, List, Object,
};
use json_decoder::{parse_json, DecodeError};

const PERSON: &str = "
        {
            \"name\": \"Owen Lynch\",
            \"info\": {
                \"age\": 16
            }
        }
        ";

fn number_of(v: &JSONVal) -> f64 {
    match v {
        JSONVal::Number(s) => s.parse::<f64>().unwrap(),
        _ => panic!("not a number"),
    }
}

fn object_of(v: &JSONVal) -> &JsonObject {
    match v {
        JSONVal::Object(d) => d,
        _ => panic!("not an object"),
    }
}

fn array_of(v: &JSONVal) -> &Vec<JSONVal> {
    match v {
        JSONVal::Array(a) => a,
        _ => panic!("not an array"),
    }
}

fn key(s: &str) -> String {
    s.to_string()
}

#[test]
fn name_test() {
    let mut json = JsonObject::new();
    json.insert("name".to_string(), JSONVal::StringVal("Owen Lynch".to_string()));
    match json.get(&"name".to_string()) {
        Some(JSONVal::StringVal(ret_val)) => assert_eq!(*ret_val, "Owen Lynch".to_string()),
        Some(_) => panic!("ret_val not a string"),
        None => panic!("Nothing found"),
    }
}

#[test]
fn name_test_fail() {
    let mut json = JsonObject::new();
    json.insert("name".to_string(), JSONVal::Number((43 as f64).to_string()));
    let found = json.get(&"name".to_string());
    assert!(found.is_some(), "Nothing found");
    assert!(!matches!(found, Some(JSONVal::StringVal(_))), "ret_val not a string");
    assert_eq!(number_of(found.unwrap()), 43.0);
}

#[test]
fn lexer_test1() {
    let lexed_cmp = vec![
        Token::OCB,
        Token::StringVal("name".to_string()),
        Token::Colon,
        Token::StringVal("Owen Lynch".to_string()),
        Token::Comma,
        Token::StringVal("info".to_string()),
        Token::Colon,
        Token::OCB,
        Token::StringVal("age".to_string()),
        Token::Colon,
        Token::Number("16".to_string()),
        Token::CCB,
        Token::CCB,
    ];
    match lex(PERSON.to_string()) {
        Ok(lexed) => {
            assert_eq!(lexed.len(), lexed_cmp.len());
            for (a, b) in lexed_cmp.iter().zip(lexed.iter()) {
                assert_eq!(a, b);
            }
            match &lexed[10] {
                Token::Number(s) => assert_eq!(s.parse::<f64>().unwrap(), 16 as f64),
                _ => panic!("Failed to lex"),
            }
        },
        Err(_) => panic!("Failed to lex"),
    }
}

#[test]
fn parser_test1() {
    let tokenvec = match lex(PERSON.to_string()) {
        Ok(v) => v,
        Err(_) => panic!("Failed to lex"),
    };
    let parsed = parse(&tokenvec).unwrap();
    let parsed_cmp = Object::DS(Box::new(DictStart::Entry(
        "name".to_string(),
        Object::StringVal("Owen Lynch".to_string()),
        Box::new(DictEntry::Entry(
            "info".to_string(),
            Object::DS(Box::new(DictStart::Entry(
                "age".to_string(),
                Object::Number("16".to_string()),
                Box::new(DictEntry::Nil),
            ))),
            Box::new(DictEntry::Nil),
        )),
    )));
    assert_eq!(parsed, parsed_cmp);
    let json_parsed = compile(&parsed);
    let json_parsed_cmp = compile(&parsed_cmp);
    let (dict_parsed, dict_parsed_cmp) = (object_of(&json_parsed), object_of(&json_parsed_cmp));
    match (dict_parsed.get(&key("name")), dict_parsed_cmp.get(&key("name"))) {
        (Some(JSONVal::StringVal(b)), Some(JSONVal::StringVal(c))) => {
            assert_eq!(*b, "Owen Lynch".to_string());
            assert_eq!(*b, *c);
        },
        _ => panic!("not able to compare"),
    }
    let info_b = object_of(dict_parsed.get(&key("info")).expect("not able to compare"));
    let info_c = object_of(dict_parsed_cmp.get(&key("info")).expect("not able to compare"));
    let a = number_of(info_b.get(&key("age")).expect("not able to compare"));
    let c = number_of(info_c.get(&key("age")).expect("not able to compare"));
    assert_eq!(a, 16 as f64);
    assert_eq!(a, c);
}

#[test]
fn json_parser_test() {
    assert!(parse_json(PERSON.to_string()).is_ok());
}

#[test]
fn member_order_does_not_change_lookups() {
    let a = parse_json("{\"x\":1,\"y\":[true,null],\"z\":\"s\"}".to_string()).unwrap();
    let b = parse_json("{\"z\":\"s\",\"x\":1,\"y\":[true,null]}".to_string()).unwrap();
    let (da, db) = (object_of(&a), object_of(&b));
    assert_eq!(da.len(), 3);
    assert_eq!(db.len(), 3);
    for k in ["x", "y", "z", "w"] {
        assert_eq!(da.get(&key(k)), db.get(&key(k)));
    }
}

#[test]
fn duplicate_key_last_wins() {
    let v = parse_json("{\"a\":1,\"a\":2}".to_string()).unwrap();
    let d = object_of(&v);
    assert_eq!(d.len(), 1);
    assert_eq!(number_of(d.get(&key("a")).unwrap()), 2.0);
}

#[test]
fn array_order_kept() {
    let v = parse_json("[1,2,3]".to_string()).unwrap();
    let items: Vec<f64> = array_of(&v).iter().map(number_of).collect();
    assert_eq!(items, vec![1.0, 2.0, 3.0]);
}

#[test]
fn empty_containers() {
    let o = parse_json("{}".to_string()).unwrap();
    assert_eq!(object_of(&o).len(), 0);
    let a = parse_json("[]".to_string()).unwrap();
    assert_eq!(array_of(&a).len(), 0);
}

#[test]
fn nested_object() {
    let v = parse_json("{\"name\":\"Owen Lynch\",\"info\":{\"age\":16}}".to_string()).unwrap();
    let d = object_of(&v);
    assert_eq!(d.get(&key("name")), Some(&JSONVal::StringVal("Owen Lynch".to_string())));
    let info = object_of(d.get(&key("info")).unwrap());
    assert_eq!(info.len(), 1);
    assert_eq!(number_of(info.get(&key("age")).unwrap()), 16.0);
}

#[test]
fn bad_number_suffix_is_num_error() {
    match parse_json("{\"x\": 1q}".to_string()) {
        Err(DecodeError::Lex(e)) => {
            assert_eq!(e.err, LexErrorType::NumError);
            assert_eq!(e.lineno, 0);
        },
        _ => panic!("expected a lexical fault"),
    }
}

#[test]
fn fault_line_is_counted() {
    match parse_json("{\n\"x\":\n 1.2.3 }".to_string()) {
        Err(DecodeError::Lex(e)) => {
            assert_eq!(e.err, LexErrorType::NumError);
            assert_eq!(e.lineno, 2);
        },
        _ => panic!("expected a lexical fault"),
    }
}

#[test]
fn unknown_word_is_invalid_symbol() {
    match parse_json("[tru]".to_string()) {
        Err(DecodeError::Lex(e)) => assert_eq!(e.err, LexErrorType::InvalidSymbol),
        _ => panic!("expected a lexical fault"),
    }
    match parse_json("[.5]".to_string()) {
        Err(DecodeError::Lex(e)) => assert_eq!(e.err, LexErrorType::InvalidSymbol),
        _ => panic!("expected a lexical fault"),
    }
    match parse_json("[1, #]".to_string()) {
        Err(DecodeError::Lex(e)) => assert_eq!(e.err, LexErrorType::InvalidSymbol),
        _ => panic!("expected a lexical fault"),
    }
}

#[test]
fn trailing_comma_is_grammar_error() {
    match parse_json("{\"a\":1,}".to_string()) {
        Err(DecodeError::Grammar(g)) => {
            assert_eq!(g.position, 5);
            assert_eq!(g.expected, Expected::Key);
        },
        _ => panic!("expected a grammar fault"),
    }
    match parse_json("[1,]".to_string()) {
        Err(DecodeError::Grammar(g)) => {
            assert_eq!(g.position, 3);
            assert_eq!(g.expected, Expected::Value);
        },
        _ => panic!("expected a grammar fault"),
    }
}

#[test]
fn other_grammar_errors() {
    let cases = [
        ("{\"a\" 1}", 2, Expected::Colon),
        ("{1,2}", 1, Expected::KeyOrCloseBrace),
        ("{\"a\":1 \"b\":2}", 4, Expected::CommaOrCloseBrace),
        ("[1 2]", 2, Expected::CommaOrCloseBracket),
        ("[:]", 1, Expected::ValueOrCloseBracket),
        ("[1,2", 4, Expected::CommaOrCloseBracket),
        ("[1,2 ", 4, Expected::CommaOrCloseBracket),
        ("", 0, Expected::Value),
        ("}", 0, Expected::Value),
        ("[1] ]", 3, Expected::EndOfInput),
    ];
    for (text, position, expected) in cases {
        match parse_json(text.to_string()) {
            Err(DecodeError::Grammar(g)) => {
                assert_eq!(g.position, position, "{}", text);
                assert_eq!(g.expected, expected, "{}", text);
            },
            other => panic!("expected a grammar fault for {}: {:?}", text, other),
        }
    }
}

#[test]
fn decode_twice_is_equal() {
    let text = "{\"k\":[1,{\"n\":null},\"s\",false],\"k2\":-2.5e3}";
    let a = parse_json(text.to_string()).unwrap();
    let b = parse_json(text.to_string()).unwrap();
    assert_eq!(a, b);
}

#[test]
fn number_literals() {
    let v = parse_json("[1.5e3, -2, -.5, 1., +7, 2E-2]".to_string()).unwrap();
    let items: Vec<f64> = array_of(&v).iter().map(number_of).collect();
    assert_eq!(items, vec![1500.0, -2.0, -0.5, 1.0, 7.0, 0.02]);
    for bad in ["[1e]", "[+]", "[1.2.3]", "[--1]", "[-.]", "[1e+]", "{1:2}"] {
        match parse_json(bad.to_string()) {
            Err(DecodeError::Lex(e)) => assert_eq!(e.err, LexErrorType::NumError, "{}", bad),
            other => panic!("expected a number fault for {}: {:?}", bad, other),
        }
    }
}

#[test]
fn scalars_and_words() {
    let v = parse_json("[true,false,null,\"a b\"]".to_string()).unwrap();
    assert_eq!(
        array_of(&v),
        &vec![
            JSONVal::Bool(true),
            JSONVal::Bool(false),
            JSONVal::Null,
            JSONVal::StringVal("a b".to_string()),
        ]
    );
}

#[test]
fn syntax_tree_of_array() {
    let toks = lex("[1,[]]".to_string()).unwrap();
    let o = parse(&toks).unwrap();
    let expected = Object::AS(Box::new(ArrayStart::Entry(
        Object::Number("1".to_string()),
        Box::new(ArrayEntry::Entry(Object::AS(Box::new(ArrayStart::Nil)), Box::new(ArrayEntry::Nil))),
    )));
    assert_eq!(o, expected);
}

#[test]
fn list_operations() {
    let l: List<u32> = List::new();
    let l = l.prepend(3).prepend(2).prepend(1);
    assert_eq!(*l.first(), 1);
    assert_eq!(*l.rest().first(), 2);
    assert_eq!(*l.rest().rest().first(), 3);
    assert!(matches!(l.rest().rest().rest(), List::Nil));
}

#[test]
fn object_entries_in_insertion_order() {
    let mut d = JsonObject::new();
    d.insert(key("b"), JSONVal::Null);
    d.insert(key("a"), JSONVal::Bool(false));
    d.insert(key("b"), JSONVal::Bool(true));
    assert_eq!(d.len(), 2);
    assert_eq!(d.key_at(0), &key("b"));
    assert_eq!(d.value_at(0), &JSONVal::Bool(true));
    assert_eq!(d.key_at(1), &key("a"));
    assert_eq!(d.value_at(1), &JSONVal::Bool(false));
    assert_eq!(d.get(&key("c")), None);
}

#[test]
fn lex_keeps_string_text_verbatim() {
    let toks = lex("{\"a\\b\" : [ 1 , x]}".to_string());
    assert!(matches!(toks, Err(e) if e.err == LexErrorType::InvalidSymbol));
    let toks = lex("[\"a b\", -0.5e+2 ]".to_string()).unwrap();
    assert_eq!(
        toks,
        vec![
            Token::OB,
            Token::StringVal("a b".to_string()),
            Token::Comma,
            Token::Number("-0.5e+2".to_string()),
            Token::CB,
        ]
    );
}

#[test]
fn newline_ending_a_literal_is_counted() {
    match parse_json("[1\nq]".to_string()) {
        Err(DecodeError::Lex(e)) => {
            assert_eq!(e.err, LexErrorType::InvalidSymbol);
            assert_eq!(e.lineno, 1);
        },
        other => panic!("expected a lexical fault: {:?}", other),
    }
    match parse_json("[true\n\n#]".to_string()) {
        Err(DecodeError::Lex(e)) => assert_eq!(e.lineno, 2),
        other => panic!("expected a lexical fault: {:?}", other),
    }
    match parse_json("[\"a\nb\", 1q]".to_string()) {
        Err(DecodeError::Lex(e)) => {
            assert_eq!(e.err, LexErrorType::NumError);
            assert_eq!(e.lineno, 1);
        },
        other => panic!("expected a lexical fault: {:?}", other),
    }
}

#[test]
fn input_end_finishes_a_literal() {
    assert_eq!(lex("16".to_string()).unwrap(), vec![Token::Number("16".to_string())]);
    assert_eq!(number_of(&parse_json("16".to_string()).unwrap()), 16.0);
    assert_eq!(parse_json("null".to_string()).unwrap(), JSONVal::Null);
    for (text, kind, line) in [
        ("tru", LexErrorType::InvalidSymbol, 0),
        ("1e", LexErrorType::NumError, 0),
        ("\"abc", LexErrorType::InvalidSymbol, 0),
        ("\n\"a\nb", LexErrorType::InvalidSymbol, 2),
    ] {
        match parse_json(text.to_string()) {
            Err(DecodeError::Lex(e)) => {
                assert_eq!(e.err, kind, "{}", text);
                assert_eq!(e.lineno, line, "{}", text);
            },
            other => panic!("expected a lexical fault for {}: {:?}", text, other),
        }
    }
}

#[test]
fn grammar_fault_names_what_was_found() {
    let cases = [
        ("{\"a\":1,}", Found::CCB),
        ("[1 2]", Found::Number),
        ("[1,", Found::EndOfInput),
        ("{\"a\" true}", Found::Bool),
        ("[1] ]", Found::CB),
        ("", Found::EndOfInput),
    ];
    for (text, found) in cases {
        match parse_json(text.to_string()) {
            Err(DecodeError::Grammar(g)) => assert_eq!(g.found, found, "{}", text),
            other => panic!("expected a grammar fault for {}: {:?}", text, other),
        }
    }
}

#[test]
fn backslash_is_copied_and_quote_closes() {
    let v = parse_json("[\"a\\\"]".to_string()).unwrap();
    assert_eq!(array_of(&v), &vec![JSONVal::StringVal("a\\".to_string())]);
}
