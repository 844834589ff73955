use lib::arena::Arena;
use lib::object::LObj;
use lib::reader::Reader;
use lib::text::{i64_to_string, parse_i64, str_eq};

fn read_print(text: &str) -> Result<(String, String), String> {
    let mut arena = Arena::new();
    let mut reader = Reader { next: text };
    let obj = reader.read(&mut arena)?;
    let r = arena.make(obj);
    Ok((arena.to_string(&r), reader.next.to_string()))
}

#[test]
fn reads_numbers_and_symbols() {
    assert_eq!(Reader::make_num_or_sym("42"), LObj::Num(42));
    assert_eq!(Reader::make_num_or_sym("-7"), LObj::Num(-7));
    assert_eq!(Reader::make_num_or_sym("+3"), LObj::Num(3));
    assert_eq!(Reader::make_num_or_sym("abc"), LObj::sym("abc"));
    assert_eq!(Reader::make_num_or_sym("-"), LObj::sym("-"));
    assert_eq!(Reader::make_num_or_sym("+"), LObj::sym("+"));
    assert_eq!(Reader::make_num_or_sym("1a"), LObj::sym("1a"));
    assert_eq!(Reader::make_num_or_sym("9223372036854775807"), LObj::Num(i64::MAX));
    assert_eq!(Reader::make_num_or_sym("-9223372036854775808"), LObj::Num(i64::MIN));
    assert_eq!(Reader::make_num_or_sym("9223372036854775808"), LObj::sym("9223372036854775808"));
}

#[test]
fn read_atom_stops_at_delimiters() {
    let mut reader = Reader { next: "abc(def" };
    assert_eq!(reader.read_atom(), LObj::sym("abc"));
    assert_eq!(reader.next, "(def");
    let mut reader = Reader { next: "12 rest" };
    assert_eq!(reader.read_atom(), LObj::Num(12));
    assert_eq!(reader.next, " rest");
    let mut reader = Reader { next: "x'y" };
    assert_eq!(reader.read_atom(), LObj::sym("x"));
    assert_eq!(reader.next, "'y");
}

#[test]
fn reads_lists_quotes_and_atoms() {
    assert_eq!(read_print("  (1 (a b) 'c)  tail"), Ok(("(1 (a b) (quote c))".to_string(), "  tail".to_string())));
    assert_eq!(read_print("foo bar"), Ok(("foo".to_string(), " bar".to_string())));
    assert_eq!(read_print("()"), Ok(("nil".to_string(), "".to_string())));
    assert_eq!(read_print("'x"), Ok(("(quote x)".to_string(), "".to_string())));
    assert_eq!(read_print("( 1\n\t2 )"), Ok(("(1 2)".to_string(), "".to_string())));
}

#[test]
fn read_errors() {
    assert_eq!(read_print(""), Err("empty input".to_string()));
    assert_eq!(read_print("   "), Err("empty input".to_string()));
    assert_eq!(read_print(") x"), Err("invalid syntax: ) x".to_string()));
    assert_eq!(read_print("(1 2"), Err("unfinished parenthesis".to_string()));
    assert_eq!(read_print("(1 (2)"), Err("unfinished parenthesis".to_string()));
    assert_eq!(read_print("'"), Err("empty input".to_string()));
}

#[test]
fn read_list_reads_up_to_closing_paren() {
    let mut arena = Arena::new();
    let mut reader = Reader { next: "a b) c" };
    let obj = reader.read_list(&mut arena).unwrap();
    let r = arena.make(obj);
    assert_eq!(arena.to_string(&r), "(a b)");
    assert_eq!(reader.next, " c");
}

#[test]
fn number_text_round_trip() {
    for n in [0i64, 7, -7, 10, 123456789, i64::MAX, i64::MIN] {
        let s = i64_to_string(n);
        assert_eq!(s, format!("{}", n));
        assert_eq!(parse_i64(&s), Some(n));
    }
}

#[test]
fn parse_rejects_malformed_numbers() {
    assert_eq!(parse_i64(""), None);
    assert_eq!(parse_i64("-"), None);
    assert_eq!(parse_i64("12x"), None);
    assert_eq!(parse_i64("--1"), None);
    assert_eq!(parse_i64("00012"), Some(12));
}

#[test]
fn string_equality() {
    assert!(str_eq("abc", "abc"));
    assert!(!str_eq("abc", "abd"));
    assert!(!str_eq("ab", "abc"));
    assert!(str_eq("", ""));
}

#[test]
fn printing_what_was_read_gives_the_text_back() {
    for text in ["(a (b 12) -3)", "x", "-42", "(car (quote (1 2)))", "((a) (b c) d)"] {
        let (printed, rest) = read_print(text).unwrap();
        assert_eq!(printed, text);
        assert_eq!(rest, "");
    }
}
