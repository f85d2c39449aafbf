//! Activation values and the scripts made of them.

use tomlplus_syntax::dumper::dumps;
use tomlplus_syntax::parser::parse;
use toolbox::activate::{
    apply_to_command, assignments, path_adds, program_exts, render_activate, render_deactivate,
    resolve_args, resolve_env, resolve_program, shell_init, Search, SearchDir, Shell,
};
use toolbox::activation_vars::{resolve, value_of, EvalError};
use toolbox::env::Env;
use toolbox::manifest::{ActivationBlock, Manifest};
use toolbox::paths::Os;
use toolbox::strmap::StrMap;
use toolbox::tomlp::{Doc, Finding, Parsed, Severity, Tree};

fn map(pairs: &[(&str, &str)]) -> StrMap<String> {
    let mut m = StrMap::new();
    for (k, v) in pairs {
        m.insert(k.to_string(), v.to_string());
    }
    m
}

fn fake_env(root: &str, name: &str) -> Env {
    Env {
        root: root.to_string(),
        manifest: Manifest {
            name: name.to_string(),
            version: "0.0.0".to_string(),
            description: None,
            packages: vec![],
            activation: StrMap::new(),
            tools: StrMap::new(),
        },
    }
}

#[test]
fn legacy_prefix_sentinel_unchanged() {
    let r = resolve("$TOOLBOX_PREFIX/bin", "/opt/env", &map(&[])).unwrap();
    assert_eq!(r, "/opt/env/bin");
}

#[test]
fn plain_literal_passes_through() {
    let r = resolve("just a value", "/x", &map(&[])).unwrap();
    assert_eq!(r, "just a value");
}

#[test]
fn env_var_falls_back_to_default_when_unset() {
    let r = resolve(
        "$ENV.TBX_DEFINITELY_UNSET_XYZ123 ?? \"vim\"",
        "/x",
        &map(&[]),
    )
    .unwrap();
    assert_eq!(r, "vim");
}

#[test]
fn toolbox_prefix_available_as_env_var_with_concat() {
    let r = resolve("$ENV.TOOLBOX_PREFIX + \"/share\"", "/opt/env", &map(&[])).unwrap();
    assert_eq!(r, "/opt/env/share");
}

#[test]
fn parse_time_resolution_would_lose_the_expression() {
    let src = "tool = $ENV.TBX_DEFINITELY_UNSET_XYZ123 ?? \"vim\"\n";
    let doc = parse(src);
    let dumped = dumps(&doc);

    assert!(dumped.contains("\"vim\""), "value resolved at parse time");
    assert!(
        !dumped.contains("$ENV"),
        "the `$ENV...?? ...` expression did not survive the round trip"
    );
}

#[test]
fn host_variables_are_read() {
    let host = map(&[("EDITOR", "emacs -nw \u{e9} \"q\""), ("TOOLBOX_PREFIX", "/host")]);
    assert_eq!(
        resolve("$ENV.EDITOR ?? \"vim\"", "/x", &host).unwrap(),
        "emacs -nw \u{e9} \"q\""
    );
    assert_eq!(resolve("$ENV.EDITOR", "/x", &host).unwrap(), "emacs -nw \u{e9} \"q\"");
    assert_eq!(resolve("$ENV.NOPE", "/x", &host).unwrap(), "");
    assert_eq!(resolve("$ENV.NOPE ?? \"a$b\"", "/x", &host).unwrap(), "a$b");
    assert_eq!(resolve("$ENV.TOOLBOX_PREFIX", "/x", &host).unwrap(), "/x");
    assert_eq!(
        resolve("$TOOLBOX_PREFIX:$TOOLBOX_PREFIX", "/x", &host).unwrap(),
        "/x:/x"
    );
}

#[test]
fn expressions_have_scalar_values() {
    let host = map(&[("N", "1")]);
    assert_eq!(resolve("$ENV.Q ?? 2 + 3", "/x", &host).unwrap(), "5");
    assert_eq!(resolve("$ENV.Q ?? -4", "/x", &host).unwrap(), "-4");
    assert_eq!(resolve("$ENV.Q ?? 1.5", "/x", &host).unwrap(), "1.5");
    assert_eq!(resolve("$ENV.Q ?? true", "/x", &host).unwrap(), "true");
    let e = resolve("$ENV.Q ?? [1]", "/x", &host).unwrap_err();
    assert_eq!(
        e.message(),
        "activation value `$ENV.Q ?? [1]` resolved to a list, expected a scalar"
    );
    let e = resolve("plain $ENV.Q", "/x", &host).unwrap_err();
    assert_eq!(
        e.message(),
        "evaluating activation value `plain $ENV.Q`: cannot parse value: `plain $ENV.Q`"
    );
}

#[test]
fn the_first_error_decides() {
    let p = Parsed {
        doc: Doc {
            config: Tree::Dict(vec![("__v".to_string(), Tree::Text("v".to_string()))]),
            meta: vec![],
        },
        diagnostics: vec![
            Finding { severity: Severity::Warning, message: "w".to_string() },
            Finding { severity: Severity::Error, message: "one".to_string() },
            Finding { severity: Severity::Error, message: "two".to_string() },
        ],
    };
    assert_eq!(
        value_of("e", &p).unwrap_err(),
        EvalError::Failed { expr: "e".to_string(), message: "one".to_string() }
    );
    let q = Parsed {
        doc: Doc { config: Tree::Dict(vec![]), meta: vec![] },
        diagnostics: vec![],
    };
    assert_eq!(value_of("e", &q).unwrap(), "");
}

#[test]
fn apply_to_command_substitutes_prefix_in_manifest_env() {
    let mut env = fake_env("/envs/e", "e");
    let mut block = ActivationBlock::default();
    block
        .env
        .insert("DATA_DIR".to_string(), "$TOOLBOX_PREFIX/share/data".to_string());
    env.manifest.activation.insert("all".to_string(), block);

    let vals = assignments(&env.manifest, Os::Linux, &env.root, &map(&[])).unwrap();
    assert_eq!(
        vals,
        vec![("DATA_DIR".to_string(), "/envs/e/share/data".to_string())]
    );
}

fn busy_env() -> Env {
    let mut env = fake_env("/e", "busy");
    env.manifest.activation.insert(
        "all".to_string(),
        ActivationBlock {
            path_prepend: vec!["share/bin".to_string()],
            env: map(&[("A", "all"), ("B", "$TOOLBOX_PREFIX")]),
        },
    );
    env.manifest.activation.insert(
        "linux".to_string(),
        ActivationBlock {
            path_prepend: vec!["opt/bin".to_string()],
            env: map(&[("A", "linux")]),
        },
    );
    env
}

#[test]
fn path_order_is_binaries_then_os_then_all() {
    let env = busy_env();
    assert_eq!(
        path_adds(&env.manifest, Os::Linux),
        vec!["linux/bin", "opt/bin", "share/bin"]
    );
    assert_eq!(
        path_adds(&env.manifest, Os::Windows),
        vec!["windows/bin", "share/bin"]
    );
}

#[test]
fn scripts_set_path_prefix_name_and_variables() {
    let env = busy_env();
    assert_eq!(
        render_activate(&env, Shell::Posix, Os::Linux, &map(&[])).unwrap(),
        "export _TOOLBOX_OLD_PATH=\"$PATH\"\nexport _TOOLBOX_STASH_VARS=\"A B\"\nif [ -n \"${A+x}\" ]; then export _TOOLBOX_STASH_A=\"$A\"; else unset _TOOLBOX_STASH_A; fi\nif [ -n \"${B+x}\" ]; then export _TOOLBOX_STASH_B=\"$B\"; else unset _TOOLBOX_STASH_B; fi\nexport PATH=\"/e/linux/bin:/e/opt/bin:/e/share/bin:$PATH\"\nexport TOOLBOX_PREFIX=\"/e\"\nexport TOOLBOX_ACTIVE_ENV=\"busy\"\nexport A=\"all\"\nexport B=\"/e\"\nexport A=\"linux\"\n"
    );
    assert_eq!(
        render_activate(&env, Shell::PowerShell, Os::Windows, &map(&[])).unwrap(),
        "$env:_TOOLBOX_OLD_PATH = $env:PATH\n$env:_TOOLBOX_STASH_VARS = \"A B\"\nif (Test-Path Env:A) { $env:_TOOLBOX_STASH_A = $env:A } else { Remove-Item Env:_TOOLBOX_STASH_A -ErrorAction SilentlyContinue }\nif (Test-Path Env:B) { $env:_TOOLBOX_STASH_B = $env:B } else { Remove-Item Env:_TOOLBOX_STASH_B -ErrorAction SilentlyContinue }\n$env:PATH = \"/e/windows/bin;/e/share/bin;$env:PATH\"\n$env:TOOLBOX_PREFIX = \"/e\"\n$env:TOOLBOX_ACTIVE_ENV = \"busy\"\n$env:A = \"all\"\n$env:B = \"/e\"\n"
    );
    let mut bad = busy_env();
    bad.manifest.activation.insert(
        "linux".to_string(),
        ActivationBlock { path_prepend: vec![], env: map(&[("X", "$ENV.Q ?? [")]) },
    );
    assert!(render_activate(&bad, Shell::Posix, Os::Linux, &map(&[])).is_err());
    assert!(render_activate(&bad, Shell::Posix, Os::Macos, &map(&[])).is_ok());
}

#[test]
fn deactivation_restores_path_and_variables() {
    assert_eq!(
        render_deactivate(Shell::Posix),
        "if [ -n \"$_TOOLBOX_OLD_PATH\" ]; then\n  export PATH=\"$_TOOLBOX_OLD_PATH\"\n  unset _TOOLBOX_OLD_PATH\nfi\nfor _toolbox_var in $(echo \"$_TOOLBOX_STASH_VARS\"); do\n  eval \"if [ -n \\\"\\${_TOOLBOX_STASH_$_toolbox_var+x}\\\" ]; then export $_toolbox_var=\\\"\\$_TOOLBOX_STASH_$_toolbox_var\\\"; else unset $_toolbox_var; fi\"\n  unset \"_TOOLBOX_STASH_$_toolbox_var\"\ndone\nunset _toolbox_var\nunset _TOOLBOX_STASH_VARS\nunset TOOLBOX_PREFIX\nunset TOOLBOX_ACTIVE_ENV\n"
    );
    let ps = render_deactivate(Shell::PowerShell);
    assert!(ps.contains("$env:PATH = $env:_TOOLBOX_OLD_PATH"));
    assert!(ps.contains("(Get-Item \"Env:_TOOLBOX_STASH_$toolboxVar\").Value"));
    assert!(ps.contains("Remove-Item Env:TOOLBOX_ACTIVE_ENV"));
}

#[test]
fn the_shell_function_evaluates_activation() {
    assert_eq!(
        shell_init(Shell::Posix, "/b/toolbox"),
        "toolbox() {\n  case \"$1\" in\n    activate|deactivate)\n      eval \"$('/b/toolbox' \"$@\")\"\n      ;;\n    *)\n      '/b/toolbox' \"$@\"\n      ;;\n  esac\n}\n"
    );
    assert_eq!(
        shell_init(Shell::PowerShell, "T"),
        "function toolbox {\n  param([Parameter(ValueFromRemainingArguments=$true)] $args)\n  if ($args.Count -gt 0 -and ($args[0] -eq 'activate' -or $args[0] -eq 'deactivate')) {\n    $script = & 'T' @args\n    Invoke-Expression ($script -join \"`n\")\n  } else {\n    & 'T' @args\n  }\n}\n"
    );
}

#[test]
fn shells_are_detected() {
    assert_eq!(Shell::detect(true, Os::Windows), Shell::PowerShell);
    assert_eq!(Shell::detect(false, Os::Windows), Shell::Posix);
    assert_eq!(Shell::detect(true, Os::Linux), Shell::Posix);
}

#[test]
fn apply_to_command_sets_prefix_and_active_env() {
    let env = fake_env("/tmp/env", "myenv");
    let p = apply_to_command(&env, Os::Linux, 2, &map(&[])).unwrap();
    let var = |k: &str| p.vars.iter().rev().find(|(x, _)| x == k).map(|(_, v)| v.as_str());
    assert_eq!(var("TOOLBOX_PREFIX"), Some("/tmp/env"));
    assert_eq!(var("TOOLBOX_ACTIVE_ENV"), Some("myenv"));
    assert_eq!(
        p.path,
        vec![
            SearchDir::InEnv("linux/bin".to_string()),
            SearchDir::Host(0),
            SearchDir::Host(1)
        ]
    );
    let busy = apply_to_command(&busy_env(), Os::Linux, 0, &map(&[])).unwrap();
    let keys: Vec<&str> = busy.vars.iter().map(|(k, _)| k.as_str()).collect();
    assert_eq!(keys, vec!["TOOLBOX_PREFIX", "TOOLBOX_ACTIVE_ENV", "A", "B", "A"]);
}

fn place(dir: SearchDir, name: &str) -> (SearchDir, String) {
    (dir, name.to_string())
}

fn in_env(p: &str) -> SearchDir {
    SearchDir::InEnv(p.to_string())
}

#[test]
fn programs_are_looked_for_by_name() {
    let m = fake_env("/e", "e").manifest;
    let none = program_exts(None, Os::Linux);
    assert_eq!(none, vec![""]);
    assert_eq!(
        resolve_program(&m, Os::Linux, 1, "Tool", &none),
        Search::Probe(vec![
            place(in_env("linux/bin"), "Tool"),
            place(SearchDir::Host(0), "Tool")
        ])
    );
    let exts = program_exts(None, Os::Windows);
    assert_eq!(exts, vec![".COM", ".EXE", ".BAT", ".CMD"]);
    assert_eq!(
        resolve_program(&m, Os::Windows, 0, "Tool.Exe", &exts),
        Search::Probe(vec![
            place(in_env("windows/bin"), "Tool.Exe.com"),
            place(in_env("windows/bin"), "Tool.Exe"),
            place(in_env("windows/bin"), "Tool.Exe.bat"),
            place(in_env("windows/bin"), "Tool.Exe.cmd"),
        ])
    );
    assert_eq!(program_exts(Some(".PY"), Os::Windows), vec![".PY"]);
    for p in ["bin/tool", "bin\\tool", "/bin/sh"] {
        assert_eq!(
            resolve_program(&m, Os::Linux, 3, p, &none),
            Search::AsPath(p.to_string())
        );
    }
}

#[test]
fn the_env_is_searched_before_the_host() {
    let m = busy_env().manifest;
    let Search::Probe(places) =
        resolve_program(&m, Os::Linux, 2, "x", &vec![String::new(), ".y".to_string()])
    else {
        panic!();
    };
    let hosts: Vec<bool> = places
        .iter()
        .map(|(d, _)| matches!(d, SearchDir::Host(_)))
        .collect();
    assert_eq!(
        hosts,
        vec![false, false, false, false, false, false, true, true, true, true]
    );
    assert_eq!(places[1], place(in_env("linux/bin"), "x.y"));
    assert_eq!(places[2], place(in_env("opt/bin"), "x"));
}

#[test]
fn arguments_and_tool_variables_are_resolved() {
    let host = map(&[("P", "80")]);
    assert_eq!(
        resolve_args(
            &vec!["$TOOLBOX_PREFIX/x".to_string(), "$ENV.P".to_string()],
            "/e",
            &host
        )
        .unwrap(),
        vec!["/e/x", "80"]
    );
    assert!(resolve_args(&vec!["x $ENV.P".to_string()], "/e", &host).is_err());
    assert_eq!(
        resolve_env(&map(&[("K", "$ENV.P"), ("J", "j")]), "/e", &host).unwrap(),
        vec![
            ("J".to_string(), "j".to_string()),
            ("K".to_string(), "80".to_string())
        ]
    );
}

#[test]
fn program_without_extension_keeps_its_name() {
    let env = busy_env();
    let exts = vec![String::new(), ".EXE".to_string()];
    let Search::Probe(places) = resolve_program(&env.manifest, Os::Linux, 0, "Tool", &exts) else {
        panic!();
    };
    assert_eq!(places[0], (SearchDir::InEnv("linux/bin".to_string()), "Tool".to_string()));
    assert_eq!(places[1].1, "Tool.exe");
}
