//! What the commands decide.

use toolbox::activate::Shell;
use toolbox::commands::{
    check_os, check_removal, config_dispatch, finish_install, init_name, install_from,
    install_source, merge_activation, parse_shell, prune_empty_dirs, register, revert_activation,
    revert_tools, stale_files, uninstall, update, update_source, update_targets, update_text,
    Arrival, ConfigAction, ConfigError, InstallError,
    InstallSource,
};
use toolbox::env::skeleton_dirs;
use toolbox::installed::{sanitize, InstalledFiles};
use toolbox::manifest::{ActivationBlock, Manifest, PackageRef, RestartPolicy, Tool};
use toolbox::paths::Os;
use toolbox::report::{config_show, declared_tools, info, list, verify};
use toolbox::strmap::{Dup, StrMap};
use toolbox::registry::Registry;

fn map(pairs: &[(&str, &str)]) -> StrMap<String> {
    let mut m = StrMap::new();
    for (k, v) in pairs {
        m.insert(k.to_string(), v.to_string());
    }
    m
}

fn strings(v: &[&str]) -> Vec<String> {
    v.iter().map(|s| s.to_string()).collect()
}

fn block(paths: &[&str], env: &[(&str, &str)]) -> ActivationBlock {
    ActivationBlock { path_prepend: strings(paths), env: map(env) }
}

fn one(os: &str, b: ActivationBlock) -> StrMap<ActivationBlock> {
    let mut m = StrMap::new();
    m.insert(os.to_string(), b);
    m
}

fn empty_manifest() -> Manifest {
    Manifest {
        name: "e".to_string(),
        version: "0.1.0".to_string(),
        description: None,
        packages: vec![],
        activation: StrMap::new(),
        tools: StrMap::new(),
    }
}

fn record(package: &str, activation: StrMap<ActivationBlock>, tools: StrMap<Tool>) -> InstalledFiles {
    InstalledFiles {
        package: package.to_string(),
        version: "1".to_string(),
        source: "s".to_string(),
        files: vec![],
        activation,
        tools,
    }
}

#[test]
fn merge_adds_new_os_block() {
    let mut base = StrMap::new();
    let add = one("all", block(&["share/bin"], &[("FOO", "bar")]));
    merge_activation(&mut base, &add);
    assert_eq!(base.get("all").unwrap().path_prepend, vec!["share/bin"]);
    assert_eq!(base.get("all").unwrap().env.get("FOO").unwrap(), "bar");
}

#[test]
fn merge_dedups_path_and_overwrites_env() {
    let mut base = one("all", block(&["share/bin"], &[("FOO", "old")]));
    let add = one("all", block(&["share/bin", "lib"], &[("FOO", "new")]));
    merge_activation(&mut base, &add);
    assert_eq!(base.get("all").unwrap().path_prepend, vec!["share/bin", "lib"]);
    assert_eq!(base.get("all").unwrap().env.get("FOO").unwrap(), "new");
}

#[test]
fn merge_is_idempotent() {
    let mut base = StrMap::new();
    let add = one("all", block(&["share/bin"], &[("FOO", "bar")]));
    merge_activation(&mut base, &add);
    let once = base.dup();
    merge_activation(&mut base, &add);
    assert_eq!(
        base.get("all").unwrap().path_prepend,
        once.get("all").unwrap().path_prepend
    );
    assert_eq!(base.get("all").unwrap().env, once.get("all").unwrap().env);
}

#[test]
fn sanitize_replaces_path_separators() {
    assert_eq!(sanitize("ghcr.io/me/rg"), "ghcr.io_me_rg");
    assert_eq!(sanitize("a:b*c?"), "a_b_c_");
    assert_eq!(sanitize("\\\"<>|-"), "_____-");
    assert_eq!(
        InstalledFiles::record_path("a/b"),
        ".toolbox/installed/a_b.json"
    );
}

#[test]
fn revert_undoes_a_merge() {
    let start = one("all", block(&["mine"], &[("MINE", "1")]));
    let mut base = start.dup();
    let mut add = one("all", block(&["p"], &[("K", "v")]));
    add.insert("linux".to_string(), block(&[], &[("L", "w")]));
    merge_activation(&mut base, &add);
    assert_eq!(base.len(), 2);
    let records = vec![record("pkg", add.dup(), StrMap::new())];
    revert_activation(&mut base, &add, &records, "pkg");
    assert_eq!(base, start);
}

#[test]
fn revert_keeps_what_others_provide_or_the_user_changed() {
    let add = one("all", block(&["shared", "own"], &[("SHARED", "1"), ("OWN", "1"), ("EDITED", "1")]));
    let mut base = add.dup();
    let other = record("other", one("all", block(&["shared"], &[("SHARED", "2")])), StrMap::new());
    let mut edited = base.remove("all").unwrap();
    edited.env.insert("EDITED".to_string(), "mine".to_string());
    base.insert("all".to_string(), edited);
    revert_activation(&mut base, &add, &vec![other], "pkg");
    assert_eq!(
        base,
        one("all", block(&["shared"], &[("SHARED", "1"), ("EDITED", "mine")]))
    );
}

fn tool(run: &str) -> Tool {
    Tool {
        run: run.to_string(),
        args: vec![],
        env: StrMap::new(),
        restart: RestartPolicy::No,
    }
}

#[test]
fn tools_are_taken_back_unless_shared_or_redefined() {
    let mut add = StrMap::new();
    for n in ["gone", "shared", "redefined"] {
        add.insert(n.to_string(), tool("r"));
    }
    let mut base = add.dup();
    base.insert("redefined".to_string(), tool("mine"));
    base.insert("other".to_string(), tool("r"));
    let mut theirs = StrMap::new();
    theirs.insert("shared".to_string(), tool("x"));
    let records = vec![
        record("pkg", StrMap::new(), add.dup()),
        record("b", StrMap::new(), theirs),
    ];
    revert_tools(&mut base, &add, &records, "pkg");
    assert!(!base.contains_key("gone"));
    assert!(base.contains_key("shared") && base.contains_key("redefined"));
    assert!(base.contains_key("other"));
}

fn arrival(name: &str, version: &str) -> Arrival {
    let mut tools = StrMap::new();
    tools.insert("t".to_string(), tool(version));
    Arrival {
        name: name.to_string(),
        version: version.to_string(),
        source: format!("reg/{name}:{version}"),
        files: strings(&["linux/bin/x"]),
        activation: one("all", block(&["b"], &[("K", version)])),
        tools,
    }
}

#[test]
fn installing_twice_updates_the_package() {
    let (m, r) = finish_install(&empty_manifest(), arrival("x", "1"));
    assert_eq!(m.packages.len(), 1);
    assert_eq!(r.files, vec!["linux/bin/x"]);
    assert_eq!(r.package, "x");
    let (m, _) = finish_install(&m, arrival("y", "5"));
    let (m, r) = finish_install(&m, arrival("x", "2"));
    let names: Vec<&str> = m.packages.iter().map(|p| p.name.as_str()).collect();
    assert_eq!(names, vec!["x", "y"]);
    assert_eq!(m.packages[0].version, "2");
    assert_eq!(m.packages[0].source, "reg/x:2");
    assert_eq!(m.activation.get("all").unwrap().env.get("K").unwrap(), "2");
    assert_eq!(m.tools.get("t").unwrap().run, "2");
    assert_eq!(r.version, "2");
}

#[test]
fn uninstalling_restores_the_manifest() {
    let (m, r) = finish_install(&empty_manifest(), arrival("x", "1"));
    let (again, _) = finish_install(&m, arrival("x", "1"));
    assert_eq!(again, m);
    let records = vec![r.dup(), record("y", one("all", block(&["q"], &[])), StrMap::new())];
    assert_eq!(uninstall(&m, "x", &r, &records), empty_manifest());
}

#[test]
fn an_install_has_one_source() {
    let s = |x: &str| Some(x.to_string());
    assert_eq!(
        install_source(s("p"), None).unwrap(),
        InstallSource::Reference("p".to_string())
    );
    assert_eq!(
        install_source(None, s("d")).unwrap(),
        InstallSource::Directory("d".to_string())
    );
    let e = install_source(s("p"), s("d")).unwrap_err();
    assert_eq!(e.message(), "pass either a package reference or --from, not both");
    let e = install_source(None, None).unwrap_err();
    assert_eq!(e.message(), "provide a package reference or --from <dir>");
}

#[test]
fn a_directory_is_installed_under_the_best_name() {
    let files = || strings(&["share/a"]);
    let a = install_from(None, None, None, "/p/rg", Some("rg"), files()).ok().unwrap();
    assert_eq!((a.name.as_str(), a.version.as_str()), ("rg", "0.0.0"));
    assert_eq!(a.source, "file:///p/rg");
    let mut pkg = empty_manifest();
    pkg.activation = one("all", block(&["b"], &[]));
    let a = install_from(None, None, Some(&pkg), "/p/rg", Some("rg"), files()).ok().unwrap();
    assert_eq!((a.name.as_str(), a.version.as_str()), ("e", "0.1.0"));
    assert!(a.activation.contains_key("all"));
    let a = install_from(Some("n"), Some("3"), Some(&pkg), "/p", None, files()).ok().unwrap();
    assert_eq!((a.name.as_str(), a.version.as_str()), ("n", "3"));
    let e = install_from(None, None, None, "/", None, files()).err().unwrap();
    assert_eq!(e, InstallError::NoName);
    assert_eq!(e.message(), "could not infer package name from path; pass --name");
    assert_eq!(init_name(Some("a"), Some("b")).as_deref(), Some("a"));
    assert_eq!(init_name(None, Some("b")).as_deref(), Some("b"));
    assert_eq!(init_name(None, None), None);
}

fn two_packages() -> Manifest {
    let mut m = empty_manifest();
    for (n, s) in [("a", "file:///src/a"), ("b", "ghcr.io/b:1")] {
        m.packages.push(PackageRef {
            name: n.to_string(),
            version: "1".to_string(),
            source: s.to_string(),
        });
    }
    m
}

#[test]
fn updates_target_recorded_sources() {
    let m = two_packages();
    let pair = |a: &str, b: &str| (a.to_string(), b.to_string());
    assert_eq!(
        update_targets(&m, None),
        Some(vec![pair("a", "file:///src/a"), pair("b", "ghcr.io/b:1")])
    );
    assert_eq!(
        update_targets(&m, Some("b")),
        Some(vec![pair("b", "ghcr.io/b:1")])
    );
    assert_eq!(update_targets(&m, Some("c")), None);
    let all = update(&m, None, "e").ok().unwrap();
    assert_eq!(all.len(), 2);
    assert_eq!(all[0].source, InstallSource::Directory("/src/a".to_string()));
    assert_eq!(all[1].name, "b");
    assert_eq!(update(&m, Some("a"), "e").ok().unwrap().len(), 1);
    assert_eq!(
        update(&m, Some("c"), "e").err().unwrap(),
        "'c' is not installed in 'e'"
    );
    assert_eq!(update_text("e", 0), "No packages installed in 'e'.\n");
    assert_eq!(update_text("e", 12), "Updated 12 package(s) in 'e'\n");
    assert_eq!(
        update_source("file:///src/a"),
        InstallSource::Directory("/src/a".to_string())
    );
    assert_eq!(
        update_source("ghcr.io/b:1"),
        InstallSource::Reference("ghcr.io/b:1".to_string())
    );
    assert_eq!(
        stale_files(&strings(&["a", "b", "c"]), &strings(&["b", "d"])),
        vec!["a", "c"]
    );
}

#[test]
fn emptied_directories_go_deepest_first() {
    let dirs = prune_empty_dirs(&strings(&[
        "linux/lib/python/site/x.py",
        "linux/lib/python/y.py",
        "share/doc/rg/README",
        "linux/bin/rg",
        "top",
        "/abs/x",
    ]));
    assert_eq!(
        dirs,
        vec!["linux/lib/python/site", "linux/lib/python", "share/doc/rg", "/abs", "share/doc"]
    );
    for d in skeleton_dirs() {
        assert!(!prune_empty_dirs(&vec![format!("{d}/f")]).contains(&d));
    }
}

fn act(m: &mut Manifest, a: ConfigAction) -> Result<String, ConfigError> {
    config_dispatch(m, "e", &a)
}

fn set(k: &str, v: &str, os: &str) -> ConfigAction {
    ConfigAction::SetEnv { key: k.to_string(), value: v.to_string(), os: os.to_string() }
}

#[test]
fn variables_are_set_and_unset() {
    let mut m = empty_manifest();
    let unset = |os: &str| ConfigAction::UnsetEnv { key: "K".to_string(), os: os.to_string() };
    assert_eq!(
        act(&mut m, set("K", "v", "all")).unwrap(),
        "Set K in [all] activation of 'e'\n"
    );
    assert_eq!(m.activation, one("all", block(&[], &[("K", "v")])));
    let e = act(&mut m, unset("linux")).unwrap_err();
    assert_eq!(e.message("e"), "'K' is not set in [linux] activation of 'e'");
    assert_eq!(
        act(&mut m, unset("all")).unwrap(),
        "Unset K from [all] activation of 'e'\n"
    );
    assert_eq!(m, empty_manifest());
    let e = act(&mut m, set("K", "v", "beos")).unwrap_err();
    assert_eq!(
        e.message("e"),
        "invalid --os 'beos'; expected one of: all, windows, linux, macos"
    );
    assert!(check_os("macos").is_ok() && check_os("").is_err());
}

#[test]
fn paths_are_added_once_and_removed() {
    let mut m = empty_manifest();
    let add = || ConfigAction::AddPath { path: "p".to_string(), os: "windows".to_string() };
    let remove = || ConfigAction::RemovePath { path: "p".to_string(), os: "windows".to_string() };
    assert_eq!(act(&mut m, add()).unwrap(), "Added p to [windows] PATH of 'e'\n");
    let once = m.dup();
    assert_eq!(
        act(&mut m, add()).unwrap(),
        "'p' is already in [windows] PATH of 'e'\n"
    );
    assert_eq!(m, once);
    assert_eq!(
        act(&mut m, remove()).unwrap(),
        "Removed p from [windows] PATH of 'e'\n"
    );
    assert_eq!(m, empty_manifest());
    let e = act(&mut m, remove()).unwrap_err();
    assert_eq!(e.message("e"), "'p' is not in [windows] PATH of 'e'");
}

#[test]
fn tools_are_declared_and_removed() {
    let mut m = empty_manifest();
    let add = |pairs: &[&str], restart: &str| ConfigAction::AddTool {
        name: "t".to_string(),
        run: "r".to_string(),
        args: strings(&["-x"]),
        env_vars: strings(pairs),
        restart: restart.to_string(),
    };
    assert_eq!(
        act(&mut m, add(&["A=1", "B=x=y"], "always")).unwrap(),
        "Added tool 't' to 'e' (run: r)\n"
    );
    let t = m.tools.get("t").unwrap();
    assert_eq!(t.restart, RestartPolicy::Always);
    assert_eq!(t.env, map(&[("A", "1"), ("B", "x=y")]));
    let e = act(&mut m, add(&["A=1", "B"], "no")).unwrap_err();
    assert_eq!(e.message("e"), "--env-var must be KEY=VALUE, got 'B'");
    let e = act(&mut m, add(&[], "never")).unwrap_err();
    assert_eq!(
        e.message("e"),
        "invalid --restart 'never'; expected one of: no, on-failure, always"
    );
    let remove = || ConfigAction::RemoveTool { name: "t".to_string() };
    assert_eq!(act(&mut m, remove()).unwrap(), "Removed tool 't' from 'e'\n");
    let e = act(&mut m, remove()).unwrap_err();
    assert_eq!(e.message("e"), "'t' is not a declared tool of 'e'");
}

#[test]
fn an_env_is_registered_under_its_name() {
    let mut reg = Registry::new();
    let m = empty_manifest();
    assert_eq!(register(&mut reg, &m, None, "/p").unwrap(), "e");
    assert_eq!(register(&mut reg, &m, Some("f"), "/p").unwrap(), "f");
    assert_eq!(
        register(&mut reg, &m, Some("e"), "/q").unwrap_err().message("e"),
        "env 'e' already registered"
    );
    assert_eq!(reg.get("e").unwrap().path, "/p");
    assert!(check_removal("/p", true).is_ok());
    assert_eq!(
        check_removal("/p", false).unwrap_err(),
        "refusing to delete /p: no toolbox-env.tomlp found (not a toolbox env). Use `unregister` to drop it from the registry instead."
    );
}

#[test]
fn shells_have_words() {
    for s in ["posix", "bash", "zsh", "sh"] {
        assert_eq!(parse_shell(s, true, Os::Windows), Some(Shell::Posix));
    }
    for s in ["pwsh", "powershell"] {
        assert_eq!(parse_shell(s, false, Os::Linux), Some(Shell::PowerShell));
    }
    assert_eq!(parse_shell("auto", true, Os::Windows), Some(Shell::PowerShell));
    assert_eq!(parse_shell("auto", true, Os::Linux), Some(Shell::Posix));
    assert_eq!(parse_shell("cmd", true, Os::Windows), None);
}

fn told() -> Manifest {
    let mut m = two_packages();
    m.description = Some("about".to_string());
    m.activation = one("all", block(&["p"], &[("A", "1"), ("B", "2")]));
    let mut t = tool("py");
    t.args = strings(&["-m", "x"]);
    t.env = map(&[("V", "w")]);
    m.tools.insert("fmt".to_string(), t);
    m.tools.insert("sh".to_string(), tool("bash"));
    m
}

#[test]
fn info_summarizes() {
    assert_eq!(
        info(&told(), "/e", Some("/old"), false, 12),
        "e 0.1.0\n  about\n  path: /e\n  relocation: needs relocation (last mounted at /old) (12 indexed file(s))\n  packages:\n    a 1 \u{2014} file:///src/a\n    b 1 \u{2014} ghcr.io/b:1\n  tools:\n    fmt: py -m x\n    sh: bash\n  activation:\n    [all] 1 path add(s), 2 env var(s)\n"
    );
    assert_eq!(
        info(&empty_manifest(), "/e", None, false, 0),
        "e 0.1.0\n  path: /e\n  relocation: never activated on this machine (0 indexed file(s))\n  packages: (none)\n"
    );
    assert!(info(&empty_manifest(), "/e", Some("/e"), true, 0).contains("up to date"));
}

#[test]
fn configuration_is_shown() {
    assert_eq!(
        config_show("n", &told()),
        "Activation for 'n':\n  [all]\n    PATH += p\n    A = 1\n    B = 2\nTools for 'n':\n  fmt: py -m x\n    env: V = w\n  sh: bash\n"
    );
    assert_eq!(
        act(&mut empty_manifest(), ConfigAction::Show).unwrap(),
        "No activation or tools configured for 'e'.\n"
    );
    assert_eq!(declared_tools(&told()), "fmt, sh");
    assert_eq!(declared_tools(&empty_manifest()), "(none)");
}

#[test]
fn verification_tells_of_drift() {
    let m = empty_manifest();
    assert_eq!(
        verify(&m, "/e", Some("/o"), false, 2),
        "Env 'e' v0.1.0 at /e\nRelocate entries: 2\nPrefix drift detected: last activated at /o but currently mounted at /e. Relocation needed.\n"
    );
    assert!(verify(&m, "/e", Some("/e"), true, 2).ends_with("Prefix unchanged since last activate.\n"));
    assert!(verify(&m, "/e", None, false, 2).ends_with("Env has never been activated on this machine.\n"));
}

#[test]
fn envs_are_listed_in_columns() {
    let mut reg = Registry::new();
    assert_eq!(
        list(&reg, &vec![]),
        "No envs registered. Use `toolbox register <path>`.\n"
    );
    reg.insert("dev", "/d").unwrap();
    reg.insert("a-name-that-is-longer-than-its-column", "/a").unwrap();
    assert_eq!(
        list(&reg, &vec![false, true]),
        format!(
            "{:<24} {:<8} PATH\n{:<24} {:<8} {}\n{:<24} {:<8} {}\n",
            "NAME",
            "STATUS",
            "a-name-that-is-longer-than-its-column",
            "missing",
            "/a",
            "dev",
            "ok",
            "/d"
        )
    );
}
