use yan::{YANObject, YANParser, YANValue};

fn parse_ok(src: &str) -> YANObject {
    YANParser::new().parse(src).unwrap()
}

fn parse_err(src: &str) -> (String, usize) {
    let e = YANParser::new().parse(src).unwrap_err();
    (e.message, e.line)
}

fn s(text: &str) -> YANValue {
    YANValue::String(text.to_string())
}

fn hint(name: &str, text: &str) -> YANValue {
    YANValue::TypeHint { name: name.to_string(), value: Box::new(s(text)) }
}

fn object(v: Option<&YANValue>) -> &YANObject {
    match v {
        Some(YANValue::Object(o)) => o,
        other => panic!("expected an object, got {:?}", other),
    }
}

fn array(v: Option<&YANValue>) -> &Vec<YANValue> {
    match v {
        Some(YANValue::Array(a)) => a,
        other => panic!("expected an array, got {:?}", other),
    }
}

#[test]
fn line_endings_are_normalised() {
    let crlf = parse_ok("a: 1\r\nb: x\rc: yes\r\n");
    let lf = parse_ok("a: 1\nb: x\nc: yes\n");
    assert_eq!(crlf, lf);
    assert_eq!(crlf.len(), 3);
    assert_eq!(YANParser::new().preprocess("a\r\nb\rc"), "a\nb\nc");
}

#[test]
fn comments_are_dropped() {
    let r = parse_ok("# header\nname: Budi  # trailing\n/* block\n   comment */\nage: 25");
    assert_eq!(r.len(), 2);
    assert_eq!(r.get("name"), Some(&s("Budi")));
    assert_eq!(r.get("age"), Some(&YANValue::Int(25)));
    let p = YANParser::new();
    assert_eq!(p.strip_comments("a # b\nc"), "a \nc");
    assert_eq!(p.strip_comments("x /* y */z"), "x z");
    assert_eq!(p.strip_comments("x /* never closed"), "x ");
    assert_eq!(p.strip_comments("x /* y\nz */w"), "x \nw");
}

#[test]
fn block_comments_keep_line_numbers() {
    assert_eq!(parse_err("/* a\nb */\nk"), ("Expected ':' in 'k'".to_string(), 3));
    assert_eq!(parse_err("a: 1\n/* x\n\ny */ b: 2\nc"), ("Expected ':' in 'c'".to_string(), 5));
    let src = "a\n/* x\ny */b # c\nd \"/*\n*/\" '#\n' /* open\n\n";
    let stripped = YANParser::new().strip_comments(src);
    assert_eq!(stripped.matches('\n').count(), src.matches('\n').count());
    let r = parse_ok("a: 1 /* x\ny */\nb: 2");
    assert_eq!(r.get("b"), Some(&YANValue::Int(2)));
}

#[test]
fn hash_inside_quotes_is_no_comment() {
    let p = YANParser::new();
    assert_eq!(p.strip_comments("c: \"#ff0080\" # real"), "c: \"#ff0080\" ");
    assert_eq!(p.strip_comments("c: '#abc'"), "c: '#abc'");
    assert_eq!(p.strip_comments("c: \"a\\\"#b\""), "c: \"a\\\"#b\"");
    let r = parse_ok("c: @color \"#ff0080\"");
    assert_eq!(r.get("c"), Some(&hint("color", "#ff0080")));
}

#[test]
fn last_duplicate_key_wins() {
    let r = parse_ok("a: 1\nb: 2\na: 3");
    assert_eq!(r.len(), 2);
    assert_eq!(r.get("a"), Some(&YANValue::Int(3)));
    assert_eq!(r.get("b"), Some(&YANValue::Int(2)));
    let r = parse_ok("o: {k: 1; k: 2}");
    let o = object(r.get("o"));
    assert_eq!(o.len(), 1);
    assert_eq!(o.get("k"), Some(&YANValue::Int(2)));
}

#[test]
fn object_reads_back_what_was_set() {
    let mut o = YANObject::new();
    o.insert("x".to_string(), YANValue::Int(1));
    o.insert("y".to_string(), YANValue::Bool(false));
    o.insert("x".to_string(), YANValue::Null);
    assert_eq!(o.len(), 2);
    assert_eq!(o.get("x"), Some(&YANValue::Null));
    assert_eq!(o.get("y"), Some(&YANValue::Bool(false)));
    assert_eq!(o.get("z"), None);
    let (k, v) = o.entry(0);
    assert_eq!(k, "x");
    assert_eq!(v, &YANValue::Null);
}

#[test]
fn arrays_keep_order() {
    let r = parse_ok("n: 3; 1; two; 2.5");
    assert_eq!(
        array(r.get("n")),
        &vec![YANValue::Int(3), YANValue::Int(1), s("two"), YANValue::Float("2.5".to_string())]
    );
    let r = parse_ok("mixed: hello; 42; true; null");
    assert_eq!(array(r.get("mixed")), &vec![s("hello"), YANValue::Int(42), YANValue::Bool(true), YANValue::Null]);
}

#[test]
fn trailing_separator_in_inline_object_is_ignored() {
    assert_eq!(parse_ok("c: {a: 1; b: 2;}"), parse_ok("c: {a: 1; b: 2}"));
    assert_eq!(parse_ok("c: {a: 1, b: 2,}"), parse_ok("c: {a: 1, b: 2}"));
    let r = parse_ok("config: {host: localhost; port: 8080;}");
    let o = object(r.get("config"));
    assert_eq!(o.len(), 2);
    assert_eq!(o.get("port"), Some(&YANValue::Int(8080)));
}

#[test]
fn scalars() {
    let r = parse_ok(
        "a: TRUE\nb: On\nc: off\nd: No\ne: nil\nf: _\ng: ~\nh: -42\ni: +7\nj: 3.14159\nk: 1.23e-4\nl: inf\nm: 99999999999999999999\nn: hello\no:",
    );
    assert_eq!(r.get("a"), Some(&YANValue::Bool(true)));
    assert_eq!(r.get("b"), Some(&YANValue::Bool(true)));
    assert_eq!(r.get("c"), Some(&YANValue::Bool(false)));
    assert_eq!(r.get("d"), Some(&YANValue::Bool(false)));
    assert_eq!(r.get("e"), Some(&YANValue::Null));
    assert_eq!(r.get("f"), Some(&YANValue::Null));
    assert_eq!(r.get("g"), Some(&YANValue::Null));
    assert_eq!(r.get("h"), Some(&YANValue::Int(-42)));
    assert_eq!(r.get("i"), Some(&s("+7")));
    assert_eq!(r.get("j"), Some(&YANValue::Float("3.14159".to_string())));
    assert_eq!(r.get("k"), Some(&YANValue::Float("1.23e-4".to_string())));
    assert_eq!(r.get("l"), Some(&s("inf")));
    assert_eq!(r.get("m"), Some(&YANValue::Float("99999999999999999999".to_string())));
    assert_eq!(r.get("n"), Some(&s("hello")));
    assert_eq!(r.get("o"), Some(&YANValue::Null));
}

#[test]
fn number_grammar() {
    let r = parse_ok("a: nan\nb: Infinity\nc: +1.5\nd: 0.5\ne: -0e0\nf: 01.5\ng: .5\nh: 5.\ni: 2E+3\nj: 1e\nk: -\nl: 1.5x");
    assert_eq!(r.get("a"), Some(&s("nan")));
    assert_eq!(r.get("b"), Some(&s("Infinity")));
    assert_eq!(r.get("c"), Some(&s("+1.5")));
    assert_eq!(r.get("d"), Some(&YANValue::Float("0.5".to_string())));
    assert_eq!(r.get("e"), Some(&YANValue::Float("-0e0".to_string())));
    assert_eq!(r.get("f"), Some(&s("01.5")));
    assert_eq!(r.get("g"), Some(&s(".5")));
    assert_eq!(r.get("h"), Some(&s("5.")));
    assert_eq!(r.get("i"), Some(&YANValue::Float("2E+3".to_string())));
    assert_eq!(r.get("j"), Some(&s("1e")));
    assert_eq!(r.get("k"), Some(&s("-")));
    assert_eq!(r.get("l"), Some(&s("1.5x")));
    let r = parse_ok("a: 007\nb: -0\nc: 0\nd: -12\ne: 10");
    assert_eq!(r.get("a"), Some(&s("007")));
    assert_eq!(r.get("b"), Some(&YANValue::Int(0)));
    assert_eq!(r.get("c"), Some(&YANValue::Int(0)));
    assert_eq!(r.get("d"), Some(&YANValue::Int(-12)));
    assert_eq!(r.get("e"), Some(&YANValue::Int(10)));
    assert_eq!(parse_err("x: @int +5"), ("Invalid int: +5".to_string(), 1));
    assert_eq!(parse_err("x: @int 007"), ("Invalid int: 007".to_string(), 1));
    assert_eq!(parse_err("x: @float nan").1, 1);
    let h = parse_ok("x: @float 3");
    assert_eq!(h.get("x"), Some(&YANValue::Float("3".to_string())));
}

#[test]
fn integer_limits() {
    let r = parse_ok("lo: -9223372036854775808\nhi: 9223372036854775807\nover: 9223372036854775808");
    assert_eq!(r.get("lo"), Some(&YANValue::Int(i64::MIN)));
    assert_eq!(r.get("hi"), Some(&YANValue::Int(i64::MAX)));
    assert_eq!(r.get("over"), Some(&YANValue::Float("9223372036854775808".to_string())));
}

#[test]
fn quoted_strings() {
    let r = parse_ok("g: \"Hello, World!\"\nq: \"say \\\"hi\\\"\"\np: \"/usr/local/bin\"");
    assert_eq!(r.get("g"), Some(&s("Hello, World!")));
    assert_eq!(r.get("q"), Some(&s("say \"hi\"")));
    assert_eq!(r.get("p"), Some(&s("/usr/local/bin")));
}

#[test]
fn escapes_in_quoted_strings() {
    let r = parse_ok(
        "a: \"a\\\\b\\n\"\nb: \"\\t\\r\\b\\f\"\nc: \"\\u00e9\\u0041!\"\nd: \"\\q\\u12\\uD800\\uzzzz\"\ne: \"end\\\"",
    );
    assert_eq!(r.get("a"), Some(&s("a\\b\n")));
    assert_eq!(r.get("b"), Some(&s("\t\r\u{8}\u{c}")));
    assert_eq!(r.get("c"), Some(&s("\u{e9}A!")));
    assert_eq!(r.get("d"), Some(&s("\\q\\u12\\uD800\\uzzzz")));
    assert_eq!(r.get("e"), Some(&s("end\\")));
}

#[test]
fn nested_blocks() {
    let r = parse_ok("a:\n  b:\n    c: 1\n  d: 2\ne: 3");
    let a = object(r.get("a"));
    let b = object(a.get("b"));
    assert_eq!(b.get("c"), Some(&YANValue::Int(1)));
    assert_eq!(a.get("d"), Some(&YANValue::Int(2)));
    assert_eq!(r.get("e"), Some(&YANValue::Int(3)));
    let t = parse_ok("a:\n\tb: 1");
    assert_eq!(object(t.get("a")).get("b"), Some(&YANValue::Int(1)));
}

#[test]
fn inline_objects_and_arrays() {
    let r = parse_ok("a: {x: 1;\n  y: {z: 2}}\nb: {1; 2}\nc: {1, 2}\nd: {}");
    let a = object(r.get("a"));
    assert_eq!(a.get("x"), Some(&YANValue::Int(1)));
    assert_eq!(object(a.get("y")).get("z"), Some(&YANValue::Int(2)));
    assert_eq!(array(r.get("b")), &vec![YANValue::Int(1), YANValue::Int(2)]);
    assert_eq!(array(r.get("c")), &vec![YANValue::Int(1), YANValue::Int(2)]);
    assert_eq!(array(r.get("d")), &Vec::<YANValue>::new());
    let r = parse_ok("e: {a, b}\nf: {a; b, c}");
    assert_eq!(array(r.get("e")), &vec![s("a"), s("b")]);
    assert_eq!(array(r.get("f")), &vec![s("a"), s("b"), s("c")]);
    assert_eq!(parse_err("g: {x, y: 1}"), ("Expected ':' in 'x'".to_string(), 1));
    let r = parse_ok("n: {a: 1; b: {c: 2}}");
    assert_eq!(object(object(r.get("n")).get("b")).get("c"), Some(&YANValue::Int(2)));
}

#[test]
fn type_hints() {
    let r = parse_ok(
        "a: @date 2026-06-27\nb: @float 3.14\nc: @bool yes\nd: @bool 0\ne: @bigint -123456789012345678901234567890\nf: @email budi@example.com\ng: @ipv4 192.168.1.1\nh: @ipv6 2001:db8::1\ni: @duration 1h30m\nj: @duration 500ms\nk: @duration -1.5s\nl: @foo 42",
    );
    assert_eq!(r.get("a"), Some(&hint("date", "2026-06-27")));
    assert_eq!(r.get("b"), Some(&YANValue::Float("3.14".to_string())));
    assert_eq!(r.get("c"), Some(&YANValue::Bool(true)));
    assert_eq!(r.get("d"), Some(&YANValue::Bool(false)));
    assert_eq!(r.get("e"), Some(&hint("bigint", "-123456789012345678901234567890")));
    assert_eq!(r.get("f"), Some(&hint("email", "budi@example.com")));
    assert_eq!(r.get("g"), Some(&hint("ipv4", "192.168.1.1")));
    assert_eq!(r.get("h"), Some(&hint("ipv6", "2001:db8::1")));
    assert_eq!(r.get("i"), Some(&hint("duration", "1h30m")));
    assert_eq!(r.get("j"), Some(&hint("duration", "500ms")));
    assert_eq!(r.get("k"), Some(&hint("duration", "-1.5s")));
    assert_eq!(
        r.get("l"),
        Some(&YANValue::TypeHint { name: "foo".to_string(), value: Box::new(YANValue::Int(42)) })
    );
    let r = parse_ok("a: @int  4\nb: @int\t5\nc: @date    2026-01-02");
    assert_eq!(r.get("a"), Some(&YANValue::Int(4)));
    assert_eq!(r.get("b"), Some(&YANValue::Int(5)));
    assert_eq!(r.get("c"), Some(&hint("date", "2026-01-02")));
    let e = parse_err("m: @color 'ABC'");
    assert!(e.0.starts_with("Invalid @color value on line 1: \"'ABC'\" (note:"));
}

#[test]
fn error_expected_colon() {
    assert_eq!(parse_err("\n\nfoo"), ("Expected ':' in 'foo'".to_string(), 3));
    assert_eq!(parse_err("a: {b: 1; c}"), ("Expected ':' in 'c'".to_string(), 1));
    assert_eq!(parse_err("x: 1\n\na: {b: {c: 1; d}}"), ("Expected ':' in 'd'".to_string(), 3));
}

#[test]
fn error_unclosed_brace() {
    assert_eq!(parse_err("x: 1\na: {b: 1\n c: 2"), ("Unclosed '{'".to_string(), 2));
}

#[test]
fn error_unclosed_string() {
    assert_eq!(parse_err("a: \"abc"), ("Unclosed string: \"abc".to_string(), 1));
    assert_eq!(parse_err("a: \""), ("Unclosed string: \"".to_string(), 1));
}

#[test]
fn error_invalid_hints() {
    assert_eq!(parse_err("a: @int x"), ("Invalid int: x".to_string(), 1));
    assert_eq!(parse_err("a: @bigint --5"), ("Invalid @bigint value on line 1: \"--5\"".to_string(), 1));
    assert_eq!(parse_err("a: @bigint -"), ("Invalid @bigint value on line 1: \"-\"".to_string(), 1));
    assert_eq!(parse_err("a: @float 1.2.3"), ("Invalid float: 1.2.3".to_string(), 1));
    assert_eq!(parse_err("b: 1\na: @bigint 12a"), ("Invalid @bigint value on line 2: \"12a\"".to_string(), 2));
    assert_eq!(parse_err("a: @email @x.com"), ("Invalid @email value on line 1: \"@x.com\"".to_string(), 1));
    assert_eq!(parse_err("a: @email a@b."), ("Invalid @email value on line 1: \"a@b.\"".to_string(), 1));
    assert_eq!(parse_err("a: @ipv4 1.2.3.256"), ("Invalid @ipv4 value on line 1: \"1.2.3.256\"".to_string(), 1));
    assert_eq!(parse_err("a: @ipv4 1.2.3"), ("Invalid @ipv4 value on line 1: \"1.2.3\"".to_string(), 1));
    assert_eq!(parse_err("a: @ipv6 12345"), ("Invalid @ipv6 value on line 1: \"12345\"".to_string(), 1));
    assert_eq!(parse_err("a: @duration 1.s"), ("Invalid @duration value on line 1: \"1.s\"".to_string(), 1));
    assert_eq!(parse_err("a: @duration 10"), ("Invalid @duration value on line 1: \"10\"".to_string(), 1));
    assert_eq!(
        parse_err("a: @color #fff"),
        ("Invalid @color value on line 1: \"\" (note: hex colors must be quoted, e.g. @color \"#ff0080\", since unquoted '#' starts a comment)".to_string(), 1)
    );
}

#[test]
fn error_message_text() {
    let e = YANParser::new().parse("\n\nfoo").unwrap_err();
    assert_eq!(e.to_string(), "YAN parse error at line 3: Expected ':' in 'foo'");
}

#[test]
fn split_lines_numbers_and_indents() {
    let lines = YANParser::new().split_lines("a: 1\n\n  b:\tx  \n\t c\n\u{3000}d");
    assert_eq!(lines.len(), 4);
    assert_eq!((lines[0].line_num, lines[0].indent), (1, 0));
    assert_eq!(lines[0].content, vec!['a', ':', ' ', '1']);
    assert_eq!((lines[1].line_num, lines[1].indent), (3, 2));
    assert_eq!(lines[1].content, vec!['b', ':', ' ', ' ', 'x']);
    assert_eq!((lines[2].line_num, lines[2].indent), (4, 3));
    assert_eq!((lines[3].line_num, lines[3].indent), (5, 3));
}

#[test]
fn scanning_helpers() {
    let p = YANParser::new();
    assert_eq!(p.find_key_colon("\"a:b\": c"), Some(5));
    assert_eq!(p.find_key_colon("no colon"), None);
    assert_eq!(
        p.smart_split("a; {b; c}; \"d;e\"", &[';']),
        vec!["a".to_string(), " {b; c}".to_string(), " \"d;e\"".to_string()]
    );
    assert_eq!(p.smart_split("a; ", &[';']), vec!["a".to_string()]);
    assert!(p.is_array("a; b"));
    assert!(!p.is_array("\"a; b\""));
    assert!(!p.is_array("{a; b}"));
    assert!(p.has_top_level_colon("k: v"));
    assert!(!p.has_top_level_colon("{k: v}"));
    assert!(p.is_inline_array("1; 2; 3"));
    assert!(!p.is_inline_array("a: 1; b: 2"));
}

#[test]
fn unicode_text_inside_inline_objects() {
    let r = parse_ok("o: {name: \"Café\"; x: 1}\np: {ключ: значение}");
    let o = object(r.get("o"));
    assert_eq!(o.get("name"), Some(&s("Café")));
    assert_eq!(o.get("x"), Some(&YANValue::Int(1)));
    assert_eq!(object(r.get("p")).get("ключ"), Some(&s("значение")));
}

#[test]
fn trailing_separator_in_array() {
    assert_eq!(parse_ok("a: x; y;"), parse_ok("a: x; y"));
}

#[test]
fn whitespace_around_values_is_ignored() {
    assert_eq!(parse_ok("a:    42   \nb:\u{3000}yes\u{a0}"), parse_ok("a: 42\nb: yes"));
    let r = parse_ok("o: {  k :   v  ;  n:1 }");
    let o = object(r.get("o"));
    assert_eq!(o.get("k"), Some(&s("v")));
    assert_eq!(o.get("n"), Some(&YANValue::Int(1)));
}

#[test]
fn smart_split_parts_rejoin() {
    let p = YANParser::new();
    let t = "a;{b;c};\"d;e\";f";
    let parts = p.smart_split(t, &[';']);
    assert_eq!(parts, vec!["a", "{b;c}", "\"d;e\"", "f"]);
    assert_eq!(parts.join(";"), t);
    let t = " x , y ,z";
    let parts = p.smart_split(t, &[',']);
    assert_eq!(parts.len(), 3);
    assert_eq!(parts.join(","), t);
}

#[test]
fn inline_array_exactly_without_top_level_colon() {
    let p = YANParser::new();
    for t in ["a, b", "a: 1", "{a: 1}, b", "\"a:b\"; c", "x; y: 2", "", "  :", "{x}: 1"] {
        assert_eq!(p.is_inline_array(t), !p.has_top_level_colon(t), "{}", t);
    }
    assert!(p.is_inline_array("{a: 1}, b"));
    assert!(!p.is_inline_array("x; y: 2"));
}
