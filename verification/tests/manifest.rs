//! Manifests: their text, and what reads back.

use toolbox::env::{CreateError, Env, LoadError};
use toolbox::manifest::{ActivationBlock, Manifest, PackageRef, RestartPolicy, Tool};
use toolbox::strmap::{Dup, StrMap};
use toolbox::tomlp::{
    ann, check, dump, minlen, opt_str, parse_strict, pattern, req_str, required, typed, Doc,
    Finding, Note, NoteArg, Parsed, ReadError, Severity, Tree, Wanted,
};

fn env_of(pairs: &[(&str, &str)]) -> StrMap<String> {
    let mut m = StrMap::new();
    for (k, v) in pairs {
        m.insert(k.to_string(), v.to_string());
    }
    m
}

fn bare(name: &str, version: &str) -> Manifest {
    Manifest {
        name: name.to_string(),
        version: version.to_string(),
        description: None,
        packages: vec![],
        activation: StrMap::new(),
        tools: StrMap::new(),
    }
}

fn sample() -> Manifest {
    let mut activation = StrMap::new();
    activation.insert(
        "all".to_string(),
        ActivationBlock {
            path_prepend: vec!["share/bin".to_string()],
            env: env_of(&[("DATA_DIR", "$TOOLBOX_PREFIX/share/data")]),
        },
    );
    let mut tools = StrMap::new();
    tools.insert(
        "fmt".to_string(),
        Tool {
            run: "python".to_string(),
            args: vec!["$TOOLBOX_PREFIX/share/scripts/fmt.py".to_string()],
            env: StrMap::new(),
            restart: RestartPolicy::No,
        },
    );
    Manifest {
        name: "myenv".to_string(),
        version: "0.1.0".to_string(),
        description: Some("a test env".to_string()),
        packages: vec![PackageRef {
            name: "ripgrep".to_string(),
            version: "14.1.0".to_string(),
            source: "ghcr.io/me/ripgrep:14.1.0".to_string(),
        }],
        activation,
        tools,
    }
}

#[test]
fn round_trip_preserves_all_fields() {
    let m = sample();
    let text = m.to_tomlp();
    let back = Manifest::from_tomlp(&text).unwrap();

    assert_eq!(back.name, "myenv");
    assert_eq!(back.version, "0.1.0");
    assert_eq!(back.description.as_deref(), Some("a test env"));
    assert_eq!(back.packages.len(), 1);
    assert_eq!(back.packages[0].source, "ghcr.io/me/ripgrep:14.1.0");
    let all = back.activation.get("all").unwrap();
    assert_eq!(all.env.get("DATA_DIR").unwrap(), "$TOOLBOX_PREFIX/share/data");
    assert_eq!(all.path_prepend, vec!["share/bin"]);
    let fmt = back.tools.get("fmt").unwrap();
    assert_eq!(fmt.run, "python");
    assert_eq!(fmt.args, vec!["$TOOLBOX_PREFIX/share/scripts/fmt.py"]);
    assert_eq!(back, sample());
}

#[test]
fn activation_value_with_embedded_quotes_round_trips() {
    let mut m = bare("q", "0.1.0");
    m.activation.insert(
        "all".to_string(),
        ActivationBlock {
            path_prepend: vec![],
            env: env_of(&[("EDITOR", "$ENV.EDITOR ?? \"vim\"")]),
        },
    );
    let back = Manifest::from_tomlp(&m.to_tomlp()).unwrap();
    assert_eq!(
        back.activation.get("all").unwrap().env.get("EDITOR").unwrap(),
        "$ENV.EDITOR ?? \"vim\""
    );
}

#[test]
fn plain_values_round_trip() {
    for value in [
        "",
        "a [b} (c) #d @e",
        "--flag \"x y\" /usr/bin",
        "$ENV.X ?? \"(a+b)\"",
        "C:\\dir\\",
        "line\none\ttab\r",
        "$TOOLBOX_PREFIX:$ENV.PATH",
        "name = \"x\"",
    ] {
        let mut m = bare("q", "0.1.0");
        m.activation.insert(
            "linux".to_string(),
            ActivationBlock {
                path_prepend: vec![value.to_string(), "p".to_string()],
                env: env_of(&[("A", value), ("B", "b")]),
            },
        );
        assert_eq!(Manifest::from_tomlp(&m.to_tomlp()).unwrap(), m, "{value:?}");
        assert!(m.rendered_and_checked().is_ok());
    }
}

#[test]
fn unbalanced_quotes_and_odd_variables_round_trip() {
    let mut m = bare("q", "0.1.0");
    m.activation.insert(
        "all".to_string(),
        ActivationBlock {
            path_prepend: vec!["a\"b".to_string()],
            env: env_of(&[
                ("A.B", "1"),
                ("ProgramFiles(x86)", "C:\\Program Files (x86)"),
                ("back\\slash $x ??", "2"),
            ]),
        },
    );
    m.tools.insert(
        "t".to_string(),
        Tool {
            run: "say \"hi\"".to_string(),
            args: vec!["a\"(b".to_string(), "c\")d".to_string()],
            env: env_of(&[("X", "in \"(-)\" brackets")]),
            restart: RestartPolicy::No,
        },
    );
    let text = m.rendered_and_checked().unwrap();
    assert_eq!(Manifest::from_tomlp(&text).unwrap(), m);

    // A sign that the parser takes to stand outside of strings cuts the text.
    m.tools.insert(
        "t".to_string(),
        Tool {
            run: "a\"b-c".to_string(),
            args: vec![],
            env: StrMap::new(),
            restart: RestartPolicy::No,
        },
    );
    assert!(m.rendered_and_checked().is_err());
}

#[test]
fn emits_required_annotations() {
    let text = sample().to_tomlp();
    assert!(text.contains("@required"));
    assert!(text.contains("@type: string"));
}

#[test]
fn minimal_manifest_round_trips() {
    let m = bare("bare", "1.0.0");
    let text = m.to_tomlp();
    assert!(!text.contains("packages"));
    assert!(!text.contains("[activation]"));
    assert!(!text.contains("[tools]"));
    let back = Manifest::from_tomlp(&text).unwrap();
    assert_eq!(back.name, "bare");
    assert!(back.packages.is_empty());
    assert!(back.activation.is_empty());
    assert!(back.tools.is_empty());
}

#[test]
fn manifest_with_utf8_bom_parses() {
    let src = "\u{feff}name = \"q\"\nversion = \"1.0.0\"\n";
    let m = Manifest::from_tomlp(src).unwrap();
    assert_eq!(m.name, "q");
    assert_eq!(m.version, "1.0.0");
}

#[test]
fn missing_required_key_errors() {
    let err = Manifest::from_tomlp("version = \"1.0\"\n").unwrap_err();
    assert!(err.message("m.tomlp").contains("name"));
    assert_eq!(err.message("m.tomlp"), "m.tomlp: missing required key `name`");
}

#[test]
fn bad_name_rejected_by_self_validation() {
    let m = bare("bad name", "0.1.0");
    let err = m.rendered_and_checked().unwrap_err();
    assert!(err.message("m.tomlp").to_lowercase().contains("invalid"));
    assert_eq!(
        err.message("m.tomlp"),
        "refusing to write invalid manifest to m.tomlp"
    );
}

#[test]
fn good_name_passes_self_validation() {
    assert!(bare("my-env_2.0", "0.1.0").rendered_and_checked().is_ok());
}

#[test]
fn every_bad_name_is_rejected() {
    for name in [
        "",
        " ",
        "a b",
        "a/b",
        "a\"b",
        "a\"+\"b",
        "a\\",
        "caf\u{e9}",
        "a\nb",
        "a#b",
        "$ENV.HOME",
        "[x]",
    ] {
        assert!(bare(name, "1").rendered_and_checked().is_err(), "{name:?}");
    }
    assert!(bare("ok", "").rendered_and_checked().is_err());
}

#[test]
fn bad_name_is_rejected_whatever_the_sections_hold() {
    let mut m = bare("bad name", "0.1.0");
    m.activation.insert(
        "x\n[name]\nk = 1\n#".to_string(),
        ActivationBlock::default(),
    );
    m.activation.insert(
        "y\nname = \"ok\"".to_string(),
        ActivationBlock::default(),
    );
    assert!(m.rendered_and_checked().is_err());
}

#[test]
fn rendered_text_is_the_manifest_text() {
    let m = sample();
    assert_eq!(m.rendered_and_checked().unwrap(), m.to_tomlp());
    let text = bare("bare", "1.0.0").to_tomlp();
    assert_eq!(
        text,
        "@required\n@type: string\n@minlen: 1\n@pattern: [A-Za-z0-9._-]+\nname = \"bare\"\n@required\n@type: string\nversion = \"1.0.0\"\n"
    );
}

#[test]
fn restart_policy_round_trips() {
    for p in [RestartPolicy::No, RestartPolicy::OnFailure, RestartPolicy::Always] {
        let mut m = bare("svc", "1");
        m.tools.insert(
            "web".to_string(),
            Tool {
                run: "bin/web".to_string(),
                args: vec!["--port".to_string(), "80".to_string()],
                env: env_of(&[("A", "1"), ("B", "x y")]),
                restart: p,
            },
        );
        let text = m.to_tomlp();
        assert_eq!(text.contains("restart"), p != RestartPolicy::No);
        assert_eq!(Manifest::from_tomlp(&text).unwrap(), m);
        assert_eq!(RestartPolicy::parse(&p.word()), Some(p));
    }
    assert_eq!(RestartPolicy::parse("sometimes"), None);
}

#[test]
fn wrong_shapes_are_named_in_the_error() {
    let head = "name = \"n\"\nversion = \"1\"\n";
    let cases = [
        ("name = 3\nversion = \"1\"\n", "f: key `name` must be a string, found int"),
        ("name = \"n\"\n", "f: missing required key `version`"),
        (
            "name = \"n\"\nversion = \"1\"\ndescription = true\n",
            "f: key `description` must be a string, found bool",
        ),
        ("packages = 1\n", "f: `packages` must be an array"),
        ("packages = [1]\n", "f: packages[0] must be a table"),
        (
            "packages = [#{ name = \"a\", version = \"1\", source = \"s\" }#, #{ name = \"b\" }#]\n",
            "f: packages[1].version must be a string",
        ),
        ("activation = 1\n", "f: `activation` must be a table"),
        ("[activation]\nall = 1\n", "f: activation.all must be a table"),
        (
            "[activation]\nall = #{ path_prepend = 1 }#\n",
            "f: activation.all.path_prepend must be an array",
        ),
        (
            "[activation]\nall = #{ path_prepend = [1] }#\n",
            "f: activation.all.path_prepend entries must be strings",
        ),
        (
            "[activation]\nall = #{ env = 1 }#\n",
            "f: activation.all.env must be a table",
        ),
        (
            "[activation]\nall = #{ env = #{ K = null }# }#\n",
            "f: activation.all.env.K must be a string",
        ),
        ("tools = 1\n", "f: `tools` must be a table"),
        ("[tools]\nt = 1\n", "f: tools.t must be a table"),
        ("[tools]\nt = #{ args = [] }#\n", "f: tools.t.run must be a string"),
        (
            "[tools]\nt = #{ run = \"r\", args = 1 }#\n",
            "f: tools.t.args must be an array",
        ),
        (
            "[tools]\nt = #{ run = \"r\", restart = \"maybe\" }#\n",
            "f: tools.t.restart must be no, on-failure or always, found `maybe`",
        ),
        (
            "[tools]\nt = #{ run = \"r\", restart = 1 }#\n",
            "f: tools.t.restart must be a string",
        ),
    ];
    for (body, want) in cases {
        let src = if body.starts_with("name") {
            body.to_string()
        } else {
            format!("{head}{body}")
        };
        let e = Manifest::from_tomlp(&src).unwrap_err();
        assert_eq!(e.message("f"), want, "{src}");
    }
    let m = Manifest::from_tomlp("name = \"n\"\nversion = \"1\"\ndescription = null\n").unwrap();
    assert_eq!(m.description, None);
}

#[test]
fn parser_errors_are_collected() {
    let e = Manifest::from_tomlp("name = nonsense\nversion = \"1\"\n").unwrap_err();
    match &e {
        ReadError::Invalid { messages } => assert_eq!(messages.len(), 1),
        other => panic!("{other:?}"),
    }
    assert_eq!(
        e.message("f"),
        "invalid TOML+ in f:\n  - cannot parse value: `nonsense`"
    );
}

fn finding(severity: Severity, message: &str) -> Finding {
    Finding { severity, message: message.to_string() }
}

#[test]
fn only_errors_count_and_runs_are_reduced() {
    let doc = || Doc { config: Tree::Dict(vec![]), meta: vec![] };
    let quiet = Parsed {
        doc: doc(),
        diagnostics: vec![finding(Severity::Warning, "w"), finding(Severity::Info, "i")],
    };
    assert_eq!(check(quiet, &vec![finding(Severity::Hint, "h")]).unwrap(), doc());
    let loud = Parsed {
        doc: doc(),
        diagnostics: vec![
            finding(Severity::Error, "a"),
            finding(Severity::Warning, "w"),
            finding(Severity::Error, "a"),
        ],
    };
    let found = vec![
        finding(Severity::Error, "a"),
        finding(Severity::Error, "b"),
        finding(Severity::Error, "a"),
    ];
    assert_eq!(
        check(loud, &found).unwrap_err(),
        ReadError::Invalid {
            messages: vec!["a".to_string(), "b".to_string(), "a".to_string()]
        }
    );
}

#[test]
fn trees_are_read_by_key() {
    let t = Tree::Dict(vec![
        ("a".to_string(), Tree::Text("x".to_string())),
        ("n".to_string(), Tree::Null),
        ("l".to_string(), Tree::List(vec![Tree::Int(1)])),
        ("f".to_string(), Tree::Float("1.5".to_string())),
    ]);
    assert_eq!(req_str(&t, "a").unwrap(), "x");
    assert_eq!(opt_str(&t, "n").unwrap(), None);
    assert_eq!(opt_str(&t, "zz").unwrap(), None);
    assert_eq!(
        opt_str(&t, "f").unwrap_err().message("p"),
        "p: key `f` must be a string, found float"
    );
    assert_eq!(
        req_str(&t, "l").unwrap_err().message("p"),
        "p: key `l` must be a string, found list"
    );
    assert_eq!(Tree::Null.kind(), "null");
    assert_eq!(t.kind(), "dict");
    assert!(Tree::Bool(true).get("a").is_none());
    assert_eq!(
        ReadError::Misfit { what: "x".to_string(), wanted: Wanted::Table }.message("p"),
        "p: x must be a table"
    );
}

#[test]
fn annotations_are_dumped_and_enforced() {
    let doc = Doc {
        config: Tree::Dict(vec![("k".to_string(), Tree::Text("ab".to_string()))]),
        meta: vec![(
            "k".to_string(),
            vec![required(), typed("string"), minlen(3), pattern("[a-z]+")],
        )],
    };
    let text = dump(&doc);
    assert_eq!(
        text,
        "@required\n@type: string\n@minlen: 3\n@pattern: [a-z]+\nk = \"ab\"\n"
    );
    let e = parse_strict(&text).unwrap_err();
    assert_eq!(
        e.message("f"),
        "invalid TOML+ in f:\n  - [k] length 2 is below @minlen: 3"
    );
    assert_eq!(
        ann("min", NoteArg::Int(4)),
        Note { name: "min".to_string(), arg: NoteArg::Int(4) }
    );
}

#[test]
fn values_survive_dump_and_parse() {
    let doc = Doc {
        config: Tree::Dict(vec![
            ("b".to_string(), Tree::Bool(false)),
            ("f".to_string(), Tree::Float("2.5".to_string())),
            ("i".to_string(), Tree::Int(-7)),
            (
                "l".to_string(),
                Tree::List(vec![Tree::Null, Tree::Text("a, b]".to_string())]),
            ),
            (
                "s".to_string(),
                Tree::Dict(vec![(
                    "t".to_string(),
                    Tree::Dict(vec![("u".to_string(), Tree::Text("v\\\n".to_string()))]),
                )]),
            ),
        ]),
        meta: vec![],
    };
    assert_eq!(parse_strict(&dump(&doc)).unwrap(), doc);
}

#[test]
fn a_new_env_has_a_checked_manifest() {
    let n = Env::create("/envs/dev", "dev", false).unwrap();
    assert_eq!(n.env.root, "/envs/dev");
    assert_eq!(n.env.manifest, bare("dev", "0.1.0"));
    assert_eq!(n.text, n.env.manifest.to_tomlp());
    assert_eq!(
        Env::create("/envs/dev", "dev", true).unwrap_err(),
        CreateError::NotEmpty
    );
    assert!(matches!(
        Env::create("/envs/dev", "no way", false),
        Err(CreateError::Refused(_))
    ));
    let back = Env::load("/envs/dev", true, &n.text).unwrap();
    assert_eq!(back.manifest, n.env.manifest);
    assert_eq!(Env::load("/x", false, "").unwrap_err(), LoadError::NoSuchPath);
    assert!(matches!(Env::load("/x", true, ""), Err(LoadError::Manifest(_))));
}

#[test]
fn a_copy_is_the_same() {
    assert_eq!(sample().dup(), sample());
}

#[test]
fn texts_with_an_odd_quote_read_back() {
    for text in ["5\" disk", "\"", "a \" (b", "\" (- )", "[\"[- x"] {
        let mut m = bare("m", "1");
        m.description = Some(text.to_string());
        m.tools.insert(
            "t".to_string(),
            Tool {
                run: text.to_string(),
                args: vec!["5\" disk".to_string(), "\"".to_string(), "- x".to_string()],
                env: env_of(&[("A", "5\" disk"), ("B", "+1")]),
                restart: RestartPolicy::No,
            },
        );
        m.packages.push(PackageRef {
            name: "5\" disk".to_string(),
            version: "1-2".to_string(),
            source: "a/b".to_string(),
        });
        let written = m.rendered_and_checked().unwrap();
        assert_eq!(Manifest::from_tomlp(&written).unwrap(), m, "{text}");
    }
    // A sign after it would be computed.
    let mut m = bare("m", "1");
    m.description = Some("5\" - disk".to_string());
    assert!(m.rendered_and_checked().is_err());
}

#[test]
fn created_env_loads() {
    let new = Env::create("/e", "dev-1.x", false).unwrap();
    let env = Env::load("/e", true, &new.text).unwrap();
    assert_eq!(env, new.env);
    assert!(matches!(Env::load("/e", false, &new.text), Err(LoadError::NoSuchPath)));
}
