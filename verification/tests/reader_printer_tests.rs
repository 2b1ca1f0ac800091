//! Reader and printer behaviour, including the read-print round trip.
use mal::printer::print_str;
use mal::reader::read_str;
use mal::MalType;

fn chars(s: &str) -> Vec<char> {
    s.chars().collect()
}

fn text(v: &[char]) -> String {
    v.iter().collect()
}

/// Reads one form and prints it readably.
fn read_print(src: &str) -> String {
    let v = read_str(&chars(src)).expect("expected the source to parse");
    text(&print_str(&v, false, true, &vec![]))
}

#[test]
fn scalars_round_trip() {
    assert_eq!(read_print("12"), "12");
    assert_eq!(read_print("-7"), "-7");
    assert_eq!(read_print("true"), "true");
    assert_eq!(read_print("false"), "false");
    assert_eq!(read_print("nil"), "nil");
    assert_eq!(read_print(":kw"), ":kw");
    assert_eq!(read_print("sym"), "sym");
}

#[test]
fn strings_escape_and_round_trip() {
    assert_eq!(read_print("\"ab\""), "\"ab\"");
    assert_eq!(read_print("\"a\\nb\""), "\"a\\nb\"");
    assert_eq!(read_print("\"a\\\\b\""), "\"a\\\\b\"");
    assert_eq!(read_print("\"a\\\"b\""), "\"a\\\"b\"");
    assert_eq!(read_print("\"\""), "\"\"");
}

#[test]
fn composites_round_trip() {
    assert_eq!(read_print("(1 2 3)"), "(1 2 3)");
    assert_eq!(read_print("[1 [2] 3]"), "[1 [2] 3]");
    assert_eq!(read_print("{:a 1 :b (2)}"), "{:a 1 :b (2)}");
    assert_eq!(read_print("( 1, 2,,3 )"), "(1 2 3)");
    assert_eq!(read_print("()"), "()");
}

#[test]
fn printed_text_reparses_to_an_equal_value() {
    // structural equality by `=` covers everything but hash-maps
    for src in ["(1 [2 :a] \"x\\ny\")", "(a b (c))", "\"\\\\\"", "[[] ()]"] {
        let v = read_str(&chars(src)).expect("expected the source to parse");
        let printed = print_str(&v, false, true, &vec![]);
        let again = read_str(&printed).expect("expected the printed text to parse");
        assert!(v.mal_eq(&again));
        let printed2 = print_str(&again, false, true, &vec![]);
        assert_eq!(text(&printed), text(&printed2));
    }
    // hash-maps never compare equal by `=`; their round trip shows in the text
    for src in ["{:k [1 2]}", "{\"a\" {:b 2}}"] {
        let v = read_str(&chars(src)).expect("expected the source to parse");
        let printed = print_str(&v, false, true, &vec![]);
        let again = read_str(&printed).expect("expected the printed text to parse");
        let printed2 = print_str(&again, false, true, &vec![]);
        assert_eq!(text(&printed), text(&printed2));
        assert_eq!(text(&printed), src.to_string());
    }
}

#[test]
fn reader_macros_rewrite() {
    assert_eq!(read_print("'(1 2)"), "(quote (1 2))");
    assert_eq!(read_print("`x"), "(quasiquote x)");
    assert_eq!(read_print("~x"), "(unquote x)");
    assert_eq!(read_print("~@(1)"), "(splice-unquote (1))");
    assert_eq!(read_print("@a"), "(deref a)");
    assert_eq!(read_print("^{:m 1} x"), "(with-meta x {:m 1})");
}

#[test]
fn parse_failures_are_none() {
    assert!(read_str(&chars("(1 2")).is_none());
    assert!(read_str(&chars("\"open")).is_none());
    assert!(read_str(&chars("{:a}")).is_none());
    assert!(read_str(&chars("")).is_none());
    assert!(read_str(&chars("1 2")).is_none());
}

#[test]
fn out_of_range_integer_token_reads_as_symbol() {
    let v = read_str(&chars("99999999999999999999")).expect("expected a symbol");
    assert!(matches!(v, MalType::Symbol(_)));
    assert_eq!(read_print("2147483647"), "2147483647");
    assert_eq!(read_print("-2147483648"), "-2147483648");
}

#[test]
fn debug_print_tags_values() {
    let v = read_str(&chars("(1)")).expect("expected a list");
    assert_eq!(text(&print_str(&v, true, true, &vec![])), "List:(1)");
}

#[test]
fn functions_print_as_placeholder() {
    let mut interp = mal::interp::Interp::new(vec![], vec![]);
    interp.rep(&chars("(fn* (a) a)"), 1000);
    assert_eq!(text(&interp.take_out()), "#<function>\n");
}
