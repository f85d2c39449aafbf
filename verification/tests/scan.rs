//! What a source holds before it is parsed.

use toolbox::activation_vars::{resolve, EvalError};
use toolbox::scan::{is_calm, survey, MAX_DEPTH};
use toolbox::strmap::StrMap;
use toolbox::tomlp::{parse_strict, ReadError, Tree};

fn nested(depth: usize) -> String {
    format!("x = {}1{}", "[".repeat(depth), "]".repeat(depth))
}

#[test]
fn sums_that_leave_64_bits_are_refused() {
    for source in [
        "x = 9223372036854775807 + 1",
        "x = 9999999999 * 9999999999",
        "x = 2 * -4611686018427387904 - 1",
        "x = [1, 9999999999 * 9999999999]",
        "x = #{ a = 9999999999 * 9999999999 }#",
        "x = [ 9999999999 # first\n * 9999999999 ]",
        "x = 0x7fffffffffff * 0x7fffffffffff",
        "[vars]\na = 9223372036854775807\n[s]\nx = $a + 1",
        "[vars]\n\"a,b\" = 9223372036854775807\n[s]\nx = $a,b + 1",
        "x = $late + 1\n[vars]\nlate = 9223372036854775807",
        "x = \"a\\\" + [9999999999 * 9999999999] + \\\"b\"",
    ] {
        assert!(!is_calm(source), "{source}");
        assert_eq!(parse_strict(source).unwrap_err(), ReadError::TooLarge, "{source}");
    }
    assert_eq!(
        ReadError::TooLarge.message("f"),
        "f: numbers are too large, values nested too deeply or annotations blank"
    );
}

#[test]
fn sums_that_fit_are_computed() {
    let doc = parse_strict("a = 999999999 * 999999999\nb = 9223372036854775807\nc = 1 - 2\n").unwrap();
    assert_eq!(doc.config.get("a"), Some(&Tree::Int(999_999_998_000_000_001)));
    assert_eq!(doc.config.get("b"), Some(&Tree::Int(i64::MAX)));
    assert_eq!(doc.config.get("c"), Some(&Tree::Int(-1)));
    let doc = parse_strict("[vars]\nbase = \"x\"\n[s]\nu = $base + \"/y\"\n").unwrap();
    let s = doc.config.get("s").unwrap();
    assert_eq!(s.get("u"), Some(&Tree::Text("x/y".to_string())));
    let doc = parse_strict("a = 1700000000000 - 1600000000000\nb = 1.5 * 10000000000 * 10000000000\n");
    assert_eq!(doc.unwrap().config.get("a"), Some(&Tree::Int(100_000_000_000)));
    let doc = parse_strict("a = 5 - 9223372036854775807\nb = -9223372036854775807 - 1\n").unwrap();
    assert_eq!(doc.config.get("a"), Some(&Tree::Int(5 - i64::MAX)));
    assert_eq!(doc.config.get("b"), Some(&Tree::Int(i64::MIN)));
    let doc = parse_strict("a = 0x7f * 0b11 + 0o7\n").unwrap();
    assert_eq!(doc.config.get("a"), Some(&Tree::Int(0x7f * 3 + 7)));
    let source = "[vars]\nport = 80\nbase = \"x\"\n[s]\nu = $base + \"/y\"\nv = $port * 2\n";
    let doc = parse_strict(source).unwrap();
    assert_eq!(doc.config.get("s").unwrap().get("v"), Some(&Tree::Int(160)));
    let text = "a = \"12345678901234567890 - 12345678901234567890\" # 1 - 12345678901234567890\n";
    assert!(parse_strict(text).is_ok());
}

#[test]
fn deep_values_are_refused() {
    let most = MAX_DEPTH as usize;
    assert!(parse_strict(&nested(most)).is_ok());
    assert_eq!(parse_strict(&nested(most + 1)).unwrap_err(), ReadError::TooLarge);
    assert_eq!(parse_strict(&nested(100_000)).unwrap_err(), ReadError::TooLarge);
    assert!(parse_strict(&format!("[a{}]\nx = 1\n", ".a".repeat(most))).is_ok());
    assert!(!is_calm(&format!("[a{}]\nx = 1\n", ".a".repeat(most + 1))));
    assert!(parse_strict(&format!("x = {}1", "null ?? ".repeat(512))).is_ok());
    assert!(!is_calm(&format!("x = {}1", "null ?? ".repeat(513))));
    // A header counts wherever it stands.
    for before in ["(", "k = )(", "k = [", "k = #{"] {
        let source = format!("{before}\n[a{}]\n", ".a".repeat(1000));
        assert_eq!(parse_strict(&source).unwrap_err(), ReadError::TooLarge, "{before}");
    }
    // Lines that give no key a value do not count.
    let source = format!("{}\nname ((\n@x: {}\nname = \"a\"\n", "(".repeat(300), "[".repeat(300));
    assert_eq!(
        parse_strict(&source).unwrap().config.get("name"),
        Some(&Tree::Text("a".to_string()))
    );
    let both = format!("[a{}]\n{}\n", ".a".repeat(most), nested(most));
    assert!(parse_strict(&both).is_ok());
    // A variable that is defined by another is as deep as both.
    let (open, close) = ("[".repeat(40), "]".repeat(40));
    let two = format!("[vars]\na = {open}1{close}\nb = {open}$a{close}\n[s]\nx = {open}$b{close}\n");
    assert!(parse_strict(&two).is_ok());
    let three = format!("{two}[vars]\nc = {open}$b{close}\n[t]\ny = $c\n");
    assert_eq!(parse_strict(&three).unwrap_err(), ReadError::TooLarge);
    // Variables that double at each step would fill any memory.
    let mut doubling = "[vars]\na0 = \"ab\"\n".to_string();
    for i in 1..64 {
        doubling.push_str(&format!("a{i} = $a{0} + $a{0}\n", i - 1));
    }
    assert_eq!(parse_strict(&doubling).unwrap_err(), ReadError::TooLarge);
    // Brackets in a string do not count, nor those that are closed again.
    assert!(is_calm(&format!("x = \"{}\"", "[".repeat(1000))));
    assert!(is_calm(&format!("x = [{}]", "[], ".repeat(1000))));
}

#[test]
fn references_are_told_from_texts() {
    assert!(survey("x = $ENV.HOME", None).outside);
    assert!(!survey("x = \"$ENV.HOME\" # $ENV.HOME", None).outside);
    assert!(survey("x = \"a\\\"$ENV.HOME\\\"\"", None).outside);
}

#[test]
fn durations_end_in_ascii() {
    let doc = parse_strict("@type: duration\nt = \"5s\"\n").unwrap();
    assert_eq!(doc.config.get("t"), Some(&Tree::Text("5s".to_string())));
    assert!(matches!(
        parse_strict("@type: duration\nt = \"5x\"\n").unwrap_err(),
        ReadError::Invalid { .. }
    ));
    for source in [
        "@type: duration\nt = \"5\u{e9}\"\n",
        "[a.b]\n@type: duration\nt = \"\u{e9}\"\n",
        "@type: string\n@type: duration\nt = \"5\u{20ac}\"\n",
    ] {
        assert_eq!(parse_strict(source).unwrap_err(), ReadError::NoDuration, "{source}");
    }
    assert_eq!(ReadError::NoDuration.message("f"), "f: a duration must end in s, m, h or d");
    assert!(parse_strict("@type: duration\n@type: string\nt = \"5\u{e9}\"\n").is_ok());
    assert!(parse_strict("@type: string\nt = \"5\u{e9}\"\n").is_ok());
}

#[test]
fn expressions_that_do_not_fit_are_refused() {
    let host: StrMap<String> = StrMap::new();
    let expr = "$ENV.N ?? 9999999999 * 9999999999";
    let e = resolve(expr, "/env", &host).unwrap_err();
    assert_eq!(e, EvalError::TooLarge { expr: expr.to_string() });
    assert_eq!(
        e.message(),
        format!("activation value `{expr}` has numbers that are too large or is nested too deeply")
    );
    assert_eq!(resolve("$ENV.N ?? 6 * 7", "/env", &host).unwrap(), "42");
}

#[test]
fn prefix_of_the_host_is_ignored() {
    let mut a: StrMap<String> = StrMap::new();
    a.insert("X".to_string(), "x".to_string());
    let mut b: StrMap<String> = StrMap::new();
    b.insert("X".to_string(), "x".to_string());
    b.insert("TOOLBOX_PREFIX".to_string(), "/elsewhere".to_string());
    for value in ["$ENV.TOOLBOX_PREFIX", "$ENV.X ?? \"d\"", "$ENV.TOOLBOX_PREFIX + \"/\" + $ENV.X"] {
        assert_eq!(resolve(value, "/env", &a), resolve(value, "/env", &b), "{value}");
    }
    assert_eq!(resolve("$ENV.TOOLBOX_PREFIX", "/env", &b).unwrap(), "/env");
}

#[test]
fn values_that_grow_without_measure_are_refused() {
    let accented = |k: usize| format!("x = {}\"\u{e9}\"{}\n", "[".repeat(k), "]".repeat(k));
    for k in [0, 1, 2, 5, 8] {
        assert!(parse_strict(&accented(k)).is_ok(), "{k}");
    }
    for k in [20, 60, 128] {
        assert_eq!(parse_strict(&accented(k)).unwrap_err(), ReadError::TooLarge, "{k}");
        assert!(is_calm(&accented(k).replace('\u{e9}', "e")));
    }
    let listed = |k: usize| format!("x = {}\"a\"{}\n", "[".repeat(k), "] + \"\"".repeat(k));
    let doc = parse_strict(&listed(1)).unwrap();
    assert_eq!(doc.config.get("x"), Some(&Tree::Text("Array([String(\"a\")])".to_string())));
    assert!(is_calm(&listed(2)));
    assert!(!is_calm(&listed(60)));
    let mut source = "[vars]\nv0 = \"a\"\n".to_string();
    for i in 1..60 {
        source.push_str(&format!("v{} = [$v{}] + \"\"\n", i, i - 1));
    }
    assert!(!is_calm(&source));
    assert!(is_calm("x = [\"a\" + \"b\", \"c\" + \"d\"]\n"));
    assert!(is_calm("x = [$ENV.A + \"b\", [\"c\" + $ENV.D]]\n"));
}

#[test]
fn annotations_with_blank_brackets_are_refused() {
    for source in ["@a( )\nx = 1\n", "  @a_1 (\t ) # note\nx = 1", "x = 1\n@a(\u{a0})"] {
        assert_eq!(parse_strict(source).unwrap_err(), ReadError::TooLarge, "{source:?}");
    }
    for source in [
        "@a()\nx = 1\n",
        "@a( b )\nx = 1\n",
        "@a(\" \")\nx = 1\n",
        "x = [\n1\n]\n# @a( )\n",
        "x = \"@a( )\"\n",
    ] {
        assert!(parse_strict(source).is_ok(), "{source:?}");
    }
}
