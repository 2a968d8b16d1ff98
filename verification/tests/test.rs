use seq_expand::expand::seq_impl;
use seq_expand::token::{Delim, Token};

fn expand(input: &Vec<Token>, call_loc: u64) -> Vec<Token> {
    seq_expand::expand::seq(input, call_loc)
}

fn id(name: &str, loc: u64) -> Token {
    Token::Ident { name: name.to_string(), loc }
}

fn lit(text: &str, loc: u64) -> Token {
    Token::Lit { text: text.to_string(), loc }
}

fn punct(ch: char, loc: u64) -> Token {
    Token::Punct { ch, joint: false, loc }
}

fn jpunct(ch: char, loc: u64) -> Token {
    Token::Punct { ch, joint: true, loc }
}

fn group(delim: Delim, tokens: Vec<Token>, loc: u64) -> Token {
    Token::Group { delim, tokens, loc }
}

fn header(var: &str, begin: &str, inclusive: bool, end: &str, body: Vec<Token>) -> Vec<Token> {
    let mut v = vec![
        id(var, 0),
        id("in", 0),
        lit(begin, 0),
        punct('.', 0),
        punct('.', 0),
    ];
    if inclusive {
        v.push(punct('=', 0));
    }
    v.push(lit(end, 0));
    v.push(group(Delim::Brace, body, 0));
    v
}

fn ident_name(t: &Token) -> String {
    match t {
        Token::Ident { name, .. } => name.clone(),
        _ => panic!("expected an identifier token"),
    }
}

fn lit_text(t: &Token) -> String {
    match t {
        Token::Lit { text, .. } => text.clone(),
        _ => panic!("expected a literal token"),
    }
}

fn children(t: &Token) -> &Vec<Token> {
    match t {
        Token::Group { tokens, .. } => tokens,
        _ => panic!("expected a group token"),
    }
}

#[test]
fn test_nothing() {
    // N in 0..8 { } expands to nothing at all.
    let out = expand(&header("N", "0", false, "8", vec![]), 0);
    assert_eq!(out, Vec::new());

    // N in 0..4 { expand_to_nothing!(N); }
    let body = vec![
        id("expand_to_nothing", 1),
        punct('!', 2),
        group(Delim::Paren, vec![id("N", 3)], 4),
        punct(';', 5),
    ];
    let out = expand(&header("N", "0", false, "4", body), 0);
    let mut expected = Vec::new();
    for k in 0..4 {
        expected.push(id("expand_to_nothing", 1));
        expected.push(punct('!', 2));
        expected.push(group(Delim::Paren, vec![lit(&k.to_string(), 3)], 4));
        expected.push(punct(';', 5));
    }
    assert_eq!(out, expected);
}

#[test]
fn test_fn() {
    // N in 1..4 { fn f#N () -> u64 { N * 2 } }
    let body = vec![
        id("fn", 1),
        id("f", 2),
        punct('#', 3),
        id("N", 4),
        group(Delim::Paren, vec![], 5),
        jpunct('-', 6),
        punct('>', 7),
        id("u64", 8),
        group(Delim::Brace, vec![id("N", 9), punct('*', 10), lit("2", 11)], 12),
    ];
    let out = expand(&header("N", "1", false, "4", body), 0);
    let mut expected = Vec::new();
    for k in 1..4 {
        expected.push(id("fn", 1));
        expected.push(id(&format!("f{}", k), 2));
        expected.push(group(Delim::Paren, vec![], 5));
        expected.push(jpunct('-', 6));
        expected.push(punct('>', 7));
        expected.push(id("u64", 8));
        expected.push(group(
            Delim::Brace,
            vec![lit(&k.to_string(), 9), punct('*', 10), lit("2", 11)],
            12,
        ));
    }
    assert_eq!(out, expected);
    // The expansion starts at N = 1, so no f0 is generated; a separately
    // written f0 () -> u64 { 100 } would not conflict.
    assert_eq!(ident_name(&out[1]), "f1");
    assert_ne!(ident_name(&out[1]), "f0");
}

#[test]
fn test_stringify() {
    // N in 9..12 { [ #( stringify!(N), )* ] }
    let template = vec![
        id("stringify", 3),
        punct('!', 4),
        group(Delim::Paren, vec![id("N", 5)], 6),
        punct(',', 7),
    ];
    let body = vec![group(
        Delim::Bracket,
        vec![punct('#', 1), group(Delim::Paren, template, 2), punct('*', 8)],
        9,
    )];
    let out = expand(&header("N", "9", false, "12", body), 0);
    assert_eq!(out.len(), 1);
    let inner = children(&out[0]);
    let mut strings = Vec::new();
    for k in 0..3 {
        assert_eq!(ident_name(&inner[4 * k]), "stringify");
        strings.push(lit_text(&children(&inner[4 * k + 2])[0]));
    }
    assert_eq!(strings, ["9", "10", "11"]);
}

#[test]
fn test_underscores() {
    // N in 100_000..100_001 { N }
    let out = expand(&header("N", "100_000", false, "100_001", vec![id("N", 1)]), 0);
    assert_eq!(out, vec![lit("100000", 1)]);
}

#[test]
fn test_suffixed() {
    // N in 0..1u16 { stringify!(N) }
    let body = vec![
        id("stringify", 1),
        punct('!', 2),
        group(Delim::Paren, vec![id("N", 3)], 4),
    ];
    let out = expand(&header("N", "0", false, "1u16", body), 0);
    let n = lit_text(&children(&out[2])[0]);
    assert_eq!(n, "0u16");
}

#[test]
fn test_padding() {
    // N in 098..=100 { fn e#N() -> &'static str { stringify!(N) } }
    let body = vec![
        id("fn", 1),
        id("e", 2),
        punct('#', 3),
        id("N", 4),
        group(Delim::Paren, vec![], 5),
        jpunct('-', 6),
        punct('>', 7),
        punct('&', 8),
        jpunct('\'', 9),
        id("static", 10),
        id("str", 11),
        group(
            Delim::Brace,
            vec![
                id("stringify", 12),
                punct('!', 13),
                group(Delim::Paren, vec![id("N", 14)], 15),
            ],
            16,
        ),
    ];
    let out = expand(&header("N", "098", true, "100", body), 0);
    let mut names = Vec::new();
    let mut strings = Vec::new();
    for k in 0..3 {
        names.push(ident_name(&out[10 * k + 1]));
        strings.push(lit_text(&children(&children(&out[10 * k + 9])[2])[0]));
    }
    assert_eq!(names, ["e098", "e099", "e100"]);
    assert_eq!(strings, ["098", "099", "100"]);
}

#[test]
fn test_byte() {
    // c in b'x'..=b'z' { fn get_#c() -> u8 { c } }
    let body = vec![
        id("fn", 1),
        id("get_", 2),
        punct('#', 3),
        id("c", 4),
        group(Delim::Paren, vec![], 5),
        jpunct('-', 6),
        punct('>', 7),
        id("u8", 8),
        group(Delim::Brace, vec![id("c", 9)], 10),
    ];
    let out = expand(&header("c", "b'x'", true, "b'z'", body), 0);
    let mut names = Vec::new();
    let mut bytes = String::new();
    for k in 0..3 {
        let name = ident_name(&out[7 * k + 1]);
        bytes.push(name.chars().last().unwrap());
        names.push(name);
        assert_eq!(
            lit_text(&children(&out[7 * k + 6])[0]),
            format!("b'{}'", bytes.chars().last().unwrap())
        );
    }
    assert_eq!(names, ["get_x", "get_y", "get_z"]);
    assert_eq!(bytes, "xyz");
}

#[test]
fn test_char() {
    // ch in 'x'..='z' { fn get_#ch() -> char { ch } }
    let body = vec![
        id("fn", 1),
        id("get_", 2),
        punct('#', 3),
        id("ch", 4),
        group(Delim::Paren, vec![], 5),
        jpunct('-', 6),
        punct('>', 7),
        id("char", 8),
        group(Delim::Brace, vec![id("ch", 9)], 10),
    ];
    let out = expand(&header("ch", "'x'", true, "'z'", body), 0);
    let mut names = Vec::new();
    let mut chars = Vec::new();
    for k in 0..3 {
        names.push(ident_name(&out[7 * k + 1]));
        chars.push(lit_text(&children(&out[7 * k + 6])[0]).chars().nth(1).unwrap());
    }
    assert_eq!(names, ["get_x", "get_y", "get_z"]);
    assert_eq!(chars, ['x', 'y', 'z']);
}

#[test]
fn test() {
    // N in 0..16 { #[derive(Copy, Clone, PartialEq, Debug)] pub enum Interrupt { #( Irq#N, )* } }
    let derive_list = vec![
        id("Copy", 2),
        punct(',', 3),
        id("Clone", 4),
        punct(',', 5),
        id("PartialEq", 6),
        punct(',', 7),
        id("Debug", 8),
    ];
    let template = vec![id("Irq", 13), punct('#', 14), id("N", 15), punct(',', 16)];
    let body = vec![
        punct('#', 1),
        group(
            Delim::Bracket,
            vec![id("derive", 9), group(Delim::Paren, derive_list, 10)],
            11,
        ),
        id("pub", 12),
        id("enum", 17),
        id("Interrupt", 18),
        group(
            Delim::Brace,
            vec![punct('#', 19), group(Delim::Paren, template, 20), punct('*', 21)],
            22,
        ),
    ];
    let out = expand(&header("N", "0", false, "16", body), 0);
    // The attribute and enum head appear once, unmodified.
    assert_eq!(out[0], punct('#', 1));
    assert_eq!(ident_name(&out[2]), "pub");
    assert_eq!(ident_name(&out[4]), "Interrupt");
    let variants = children(&out[5]);
    assert_eq!(variants.len(), 32);
    let mut names = Vec::new();
    for k in 0..16 {
        names.push(ident_name(&variants[2 * k]));
    }
    assert_eq!(ident_name(&variants[16]), "Irq8");
    assert_eq!(names[8], "Irq8");
}

#[test]
fn test_test() {
    // N in 16..=20 { pub enum E { #( Variant#N, )* } }
    let template = vec![id("Variant", 4), punct('#', 5), id("N", 6), punct(',', 7)];
    let body = vec![
        id("pub", 1),
        id("enum", 2),
        id("E", 3),
        group(
            Delim::Brace,
            vec![punct('#', 8), group(Delim::Paren, template, 9), punct('*', 10)],
            11,
        ),
    ];
    let out = expand(&header("N", "16", true, "20", body), 0);
    let variants = children(&out[3]);
    assert_eq!(variants.len(), 10);
    let mut names = Vec::new();
    for k in 0..5 {
        names.push(ident_name(&variants[2 * k]));
    }
    assert_eq!(names, ["Variant16", "Variant17", "Variant18", "Variant19", "Variant20"]);
    let first = 16;
    let desc = match first {
        16 => "min",
        17 | 18 | 19 => "in between",
        20 => "max",
        _ => unreachable!(),
    };
    assert_eq!(desc, "min");
}

#[test]
fn test_array() {
    // N in 0..256 { [ #( Proc::new(N), )* ] }
    let template = vec![
        id("Proc", 3),
        jpunct(':', 4),
        punct(':', 5),
        id("new", 6),
        group(Delim::Paren, vec![id("N", 7)], 8),
        punct(',', 9),
    ];
    let body = vec![group(
        Delim::Bracket,
        vec![punct('#', 1), group(Delim::Paren, template, 2), punct('*', 10)],
        11,
    )];
    let out = expand(&header("N", "0", false, "256", body), 0);
    let inner = children(&out[0]);
    assert_eq!(inner.len(), 256 * 6);
    // Spot check entry 32: Proc::new(32).
    assert_eq!(ident_name(&inner[32 * 6]), "Proc");
    assert_eq!(lit_text(&children(&inner[32 * 6 + 4])[0]), "32");
}

#[test]
fn test_fusion_triple() {
    // Fusion f#N over 4..=6 yields the single identifiers f4, f5, f6.
    let body = vec![id("f", 1), punct('#', 2), id("N", 3)];
    let out = expand(&header("N", "4", true, "6", body), 0);
    assert_eq!(out, vec![id("f4", 1), id("f5", 1), id("f6", 1)]);
}

#[test]
fn test_empty_range() {
    // begin == end, exclusive: an empty expansion, no error.
    let body = vec![id("anything", 1), lit("5", 2)];
    let out = expand(&header("N", "5", false, "5", body), 0);
    assert_eq!(out, Vec::new());
}

#[test]
fn test_marker_surroundings_once() {
    // Tokens outside the marker appear exactly once, unmodified.
    let template = vec![id("N", 3)];
    let body = vec![
        id("before", 1),
        punct('#', 2),
        group(Delim::Paren, template, 4),
        punct('*', 5),
        id("after", 6),
    ];
    let out = expand(&header("N", "0", false, "3", body), 0);
    assert_eq!(
        out,
        vec![id("before", 1), lit("0", 3), lit("1", 3), lit("2", 3), id("after", 6)]
    );
}

#[test]
fn test_nested_marker_depth_two() {
    // A marker two groups deep expands exactly as one at the top level.
    let template = vec![id("N", 5)];
    let marker = vec![punct('#', 4), group(Delim::Paren, template, 6), punct('*', 7)];
    let body = vec![group(
        Delim::Bracket,
        vec![group(Delim::Brace, marker, 3)],
        2,
    )];
    let out = expand(&header("N", "1", true, "2", body), 0);
    let expected = vec![group(
        Delim::Bracket,
        vec![group(Delim::Brace, vec![lit("1", 5), lit("2", 5)], 3)],
        2,
    )];
    assert_eq!(out, expected);
}

#[test]
fn test_marker_inside_template_left_alone() {
    // A marker nested inside another marker's template is not expanded a
    // second time: its tokens pass through, aside from substitution.
    let inner_template = vec![id("N", 4)];
    let template = vec![
        punct('#', 3),
        group(Delim::Paren, inner_template, 5),
        punct('*', 6),
    ];
    let body = vec![punct('#', 1), group(Delim::Paren, template, 2), punct('*', 7)];
    let out = expand(&header("N", "0", false, "2", body), 0);
    let expected = vec![
        punct('#', 3),
        group(Delim::Paren, vec![lit("0", 4)], 5),
        punct('*', 6),
        punct('#', 3),
        group(Delim::Paren, vec![lit("1", 4)], 5),
        punct('*', 6),
    ];
    assert_eq!(out, expected);
}

#[test]
fn test_invisible_group_bound() {
    // A bound wrapped in an invisible one-token group is unwrapped, as
    // macro expansion can produce.
    let mut input = vec![
        id("N", 0),
        id("in", 0),
        group(Delim::NoDelim, vec![lit("1", 1)], 2),
        punct('.', 0),
        punct('.', 0),
        lit("3", 0),
    ];
    input.push(group(Delim::Brace, vec![id("N", 4)], 0));
    let out = expand(&input, 0);
    assert_eq!(out, vec![lit("1", 4), lit("2", 4)]);
}

#[test]
fn test_char_surrogate_gap() {
    // A character range crossing the surrogate gap skips it.
    let body = vec![id("ch", 1)];
    let begin = "'\u{D7FF}'".to_string();
    let end = "'\u{E000}'".to_string();
    let out = expand(&header("ch", &begin, true, &end, body), 0);
    assert_eq!(out.len(), 2);
    assert_eq!(lit_text(&out[0]), format!("'{}'", '\u{D7FF}'));
    assert_eq!(lit_text(&out[1]), format!("'{}'", '\u{E000}'));
}

#[test]
fn test_missing_in_keyword() {
    // N 0..3 { } — the error points at the `0` token and names `in`.
    let input = vec![
        id("N", 1),
        lit("0", 7),
        punct('.', 8),
        punct('.', 9),
        lit("3", 10),
        group(Delim::Brace, vec![], 11),
    ];
    let err = seq_impl(&input, 0).unwrap_err();
    assert_eq!(err.message, "expected `in`");
    assert_eq!(err.loc, 7);
    // Through the entry point the same failure becomes a compile_error!
    // fragment at that location.
    let out = expand(&input, 0);
    assert_eq!(ident_name(&out[0]), "compile_error");
    assert_eq!(out[1], punct('!', 7));
    assert_eq!(lit_text(&children(&out[2])[0]), "\"expected `in`\"");
}

#[test]
fn test_error_empty_input() {
    let err = seq_impl(&vec![], 42).unwrap_err();
    assert_eq!(err.message, "unexpected end of input");
    assert_eq!(err.loc, 42);
}

#[test]
fn test_error_expected_ident() {
    let err = seq_impl(&vec![lit("1", 5)], 0).unwrap_err();
    assert_eq!(err.message, "expected ident");
    assert_eq!(err.loc, 5);
}

#[test]
fn test_error_expected_value() {
    let input = vec![id("N", 1), id("in", 2), id("x", 3)];
    let err = seq_impl(&input, 0).unwrap_err();
    assert_eq!(err.message, "expected integer or char literal");
    assert_eq!(err.loc, 3);
}

#[test]
fn test_error_bad_literal() {
    let input = vec![id("N", 1), id("in", 2), lit("''", 3)];
    let err = seq_impl(&input, 0).unwrap_err();
    assert_eq!(err.message, "expected integer or char literal");
    assert_eq!(err.loc, 3);
}

#[test]
fn test_error_expected_dot() {
    let input = vec![id("N", 1), id("in", 2), lit("0", 3), punct(',', 4)];
    let err = seq_impl(&input, 0).unwrap_err();
    assert_eq!(err.message, "expected `.`");
    assert_eq!(err.loc, 4);
}

#[test]
fn test_error_expected_eq() {
    // After the dots, any punctuation other than `=` is rejected.
    let input = vec![
        id("N", 1),
        id("in", 2),
        lit("0", 3),
        punct('.', 4),
        punct('.', 5),
        punct('<', 6),
        lit("5", 7),
    ];
    let err = seq_impl(&input, 0).unwrap_err();
    assert_eq!(err.message, "expected `=`");
    assert_eq!(err.loc, 6);
}

#[test]
fn test_error_expected_braces() {
    let input = vec![
        id("N", 1),
        id("in", 2),
        lit("0", 3),
        punct('.', 4),
        punct('.', 5),
        lit("5", 6),
        group(Delim::Paren, vec![], 7),
    ];
    let err = seq_impl(&input, 0).unwrap_err();
    assert_eq!(err.message, "expected curly braces");
    assert_eq!(err.loc, 7);
}

#[test]
fn test_error_trailing_token() {
    let mut input = header("N", "0", false, "3", vec![]);
    input.push(id("extra", 9));
    let err = seq_impl(&input, 0).unwrap_err();
    assert_eq!(err.message, "unexpected token");
    assert_eq!(err.loc, 9);
}

#[test]
fn test_error_kind_mismatch() {
    let mut input = vec![
        id("N", 1),
        id("in", 2),
        lit("'a'", 3),
        punct('.', 4),
        punct('.', 5),
        lit("5", 6),
    ];
    input.push(group(Delim::Brace, vec![], 7));
    let err = seq_impl(&input, 0).unwrap_err();
    assert_eq!(err.message, "expected range bounds of the same kind");
    assert_eq!(err.loc, 6);
}

#[test]
fn test_error_suffix_mismatch() {
    let mut input = vec![
        id("N", 1),
        id("in", 2),
        lit("0u8", 3),
        punct('.', 4),
        punct('.', 5),
        lit("5u16", 6),
    ];
    input.push(group(Delim::Brace, vec![], 7));
    let err = seq_impl(&input, 0).unwrap_err();
    assert_eq!(err.message, "expected range bounds with the same suffix");
    assert_eq!(err.loc, 6);
}

#[test]
fn test_error_reversed_inclusive() {
    let mut input = vec![
        id("N", 1),
        id("in", 2),
        lit("5", 3),
        punct('.', 4),
        punct('.', 5),
        punct('=', 6),
        lit("3", 7),
    ];
    input.push(group(Delim::Brace, vec![], 8));
    let err = seq_impl(&input, 0).unwrap_err();
    assert_eq!(err.message, "expected inclusive range with begin <= end");
    assert_eq!(err.loc, 7);
    // A reversed exclusive range is merely empty.
    let out = expand(&header("N", "5", false, "3", vec![id("N", 1)]), 0);
    assert_eq!(out, Vec::new());
}

#[test]
fn test_variable_not_rescanned_after_fusion() {
    // N#N replaces the first N as a bare variable, leaving # and the next N
    // to be handled on their own.
    let body = vec![id("N", 1), punct('#', 2), id("N", 3)];
    let out = expand(&header("N", "7", false, "8", body), 0);
    assert_eq!(out, vec![lit("7", 1), punct('#', 2), lit("7", 3)]);
}

#[test]
fn test_overflow_literal_rejected() {
    let input = vec![id("N", 1), id("in", 2), lit("99999999999999999999", 3)];
    let err = seq_impl(&input, 0).unwrap_err();
    assert_eq!(err.message, "expected integer or char literal");
    assert_eq!(err.loc, 3);
}

#[test]
fn test_u64_max_inclusive_bound() {
    // The largest representable bound: a one-value inclusive range at the
    // top of u64, which must iterate without wrapping.
    let max = "18446744073709551615";
    let out = expand(&header("N", max, true, max, vec![id("N", 1)]), 0);
    assert_eq!(out, vec![lit(max, 1)]);
}
