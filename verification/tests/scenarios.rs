//! Whole uses of the library, with files and registries held in memory.

use toolbox::activate::{program_exts, render_activate, resolve_program, Search, SearchDir, Shell};
use toolbox::commands::{
    check_removal, config_dispatch, finish_install, install_from, needs_relocation, register,
    removable_files, settle, stale_files, uninstall, update, update_text, Arrival, ConfigAction, InstallSource,
};
use toolbox::env::Env;
use toolbox::installed::InstalledFiles;
use toolbox::manifest::{Manifest, RestartPolicy};
use toolbox::oci::{copied_files, extract_dir, Present, WalkEntry, WalkKind};
use toolbox::paths::Os;
use toolbox::registry::Registry;
use toolbox::relocate::{
    apply, last_prefix, merged_index, present_entries, scan_for_sentinel, EnvTree, TreeFile,
};
use toolbox::report::{config_show, info, list, status};
use toolbox::run::{start_service, stop_service, which, which_env, RunError, Stop, Target};
use toolbox::service::{on_exit, restart_line, tail, ServiceState, Supervision};
use toolbox::strmap::{Dup, StrMap};

const SHARED: Present = Present { windows: false, linux: false, macos: false, share: true };

fn map(pairs: &[(&str, &str)]) -> StrMap<String> {
    let mut m = StrMap::new();
    for (k, v) in pairs {
        m.insert(k.to_string(), v.to_string());
    }
    m
}

fn new_env(root: &str, name: &str) -> Env {
    Env::create(root, name, false).unwrap().env
}

/// What a package tree with these files below `share` and this manifest installs.
fn package(dir: &str, manifest: &str, files: &[&str]) -> Arrival {
    let entries: Vec<WalkEntry> = files
        .iter()
        .map(|f| WalkEntry {
            components: f.split('/').map(|s| s.to_string()).collect(),
            kind: WalkKind::File,
        })
        .collect();
    let steps = extract_dir(SHARED, &entries).unwrap();
    let pkg = Manifest::from_tomlp(manifest).unwrap();
    install_from(None, None, Some(&pkg), dir, Some("pkg"), copied_files(&steps)).ok().unwrap()
}

/// Install into an env, through the text of its manifest.
fn install(env: Env, arrival: Arrival, records: &mut Vec<InstalledFiles>) -> Env {
    let (manifest, record) = finish_install(&env.manifest, arrival);
    records.retain(|r| r.package != record.package);
    records.push(record);
    saved(env.root, manifest)
}

/// The env with this manifest as it reads back.
fn saved(root: String, manifest: Manifest) -> Env {
    let text = manifest.rendered_and_checked().unwrap();
    Env::load(&root, true, &text).unwrap()
}

#[test]
fn env_relocates_after_directory_move() {
    let data = b"data_dir=__TOOLBOX_PREFIX__/share\n".to_vec();
    let mut files = StrMap::new();
    files.insert("share/config.txt".to_string(), data.clone());
    let mut tree = EnvTree { files, last_prefix_file: None };
    let index = scan_for_sentinel(&vec![TreeFile {
        components: vec!["share".to_string(), "config.txt".to_string()],
        data: Some(data),
    }]);
    let text = |t: &EnvTree| {
        String::from_utf8(t.files.get("share/config.txt").unwrap().clone()).unwrap()
    };

    settle(&mut tree, &index, "/tmp/alpha").unwrap();
    assert_eq!(text(&tree), "data_dir=/tmp/alpha/share\n");

    // The directory is moved from alpha to beta, and activated there.
    let last = tree.last_prefix_file.as_deref().map(last_prefix);
    assert_eq!(last.as_deref(), Some("/tmp/alpha"));
    assert!(needs_relocation(&index, last.as_deref(), false));
    apply(&mut tree, &index, "/tmp/beta").unwrap();
    let after_move = text(&tree);
    assert!(after_move.contains("beta"));
    assert!(!after_move.contains("alpha"));
    assert!(!after_move.contains("__TOOLBOX_PREFIX__"));
    assert!(!needs_relocation(&index, Some("/tmp/beta"), true));
}

fn tree_files(files: &[(&str, &[u8])]) -> Vec<TreeFile> {
    files
        .iter()
        .map(|(p, d)| TreeFile {
            components: p.split('/').map(|s| s.to_string()).collect(),
            data: Some(d.to_vec()),
        })
        .collect()
}

#[test]
fn env_with_two_packages_moves_as_a_whole() {
    let mut tree = EnvTree { files: StrMap::new(), last_prefix_file: None };
    let none = scan_for_sentinel(&vec![]);

    let one: [(&str, &[u8]); 1] = [("share/one.cfg", b"one=__TOOLBOX_PREFIX__/one\n")];
    tree.files.insert(one[0].0.to_string(), one[0].1.to_vec());
    let found = scan_for_sentinel(&tree_files(&one));
    settle(&mut tree, &found, "/a").unwrap();
    let index = merged_index(&none, found, &vec![]);

    // The files of the first package hold no sentinel any more.
    let two: [(&str, &[u8]); 2] = [
        ("share/one.cfg", b"one=/a/one\n"),
        ("share/two.cfg", b"two=__TOOLBOX_PREFIX__/two\n"),
    ];
    tree.files.insert(two[1].0.to_string(), two[1].1.to_vec());
    let found = scan_for_sentinel(&tree_files(&two));
    assert_eq!(found.entries.len(), 1);
    settle(&mut tree, &found, "/a").unwrap();
    let present = present_entries(&index, &vec![true], &vec!["share/two.cfg".to_string()]);
    assert_eq!(present, vec!["share/one.cfg".to_string()]);
    let index = merged_index(&index, found, &present);
    let paths: Vec<&str> = index.entries.iter().map(|e| e.path.as_str()).collect();
    assert_eq!(paths, vec!["share/one.cfg", "share/two.cfg"]);

    apply(&mut tree, &index, "/moved").unwrap();
    assert_eq!(tree.files.get("share/one.cfg").unwrap(), b"one=/moved/one\n");
    assert_eq!(tree.files.get("share/two.cfg").unwrap(), b"two=/moved/two\n");

    // What an uninstall takes away leaves the index.
    let present = present_entries(&index, &vec![false, true], &vec![]);
    assert_eq!(present, vec!["share/two.cfg".to_string()]);
    let index = merged_index(&index, scan_for_sentinel(&vec![]), &present);
    assert_eq!(index.entries.len(), 1);
    assert_eq!(index.entries[0].path, "share/two.cfg");
}

#[test]
fn present_entries_are_there_and_not_laid_anew() {
    let files: [(&str, &[u8]); 4] = [
        ("a.cfg", b"__TOOLBOX_PREFIX__"),
        ("b.cfg", b"__TOOLBOX_PREFIX__"),
        ("c.cfg", b"__TOOLBOX_PREFIX__"),
        ("d.cfg", b"__TOOLBOX_PREFIX__"),
    ];
    let index = scan_for_sentinel(&tree_files(&files));
    let laid = vec!["b.cfg".to_string(), "e.cfg".to_string()];
    let there = vec![true, true, false, true];
    assert_eq!(present_entries(&index, &there, &laid), vec!["a.cfg", "d.cfg"]);
    assert_eq!(present_entries(&index, &vec![true], &laid), vec!["a.cfg"]);
    assert!(present_entries(&index, &vec![], &vec![]).is_empty());
    assert!(present_entries(&scan_for_sentinel(&vec![]), &there, &laid).is_empty());
}

#[test]
fn uninstall_reverts_contributions_but_keeps_shared() {
    let a = "name = \"pkg-a\"\nversion = \"1.0.0\"\n\n\
         [activation]\nall = #{ path_prepend = [\"share/common\"], env = #{ A_VAR = \"1\" }# }#\n\n\
         [tools]\natool = #{ run = \"echo\" }#\n";
    let b = "name = \"pkg-b\"\nversion = \"1.0.0\"\n\n\
         [activation]\nall = #{ path_prepend = [\"share/common\"] }#\n";
    let mut records = Vec::new();
    let env = new_env("/env", "dev");
    let env = install(env, package("/pkg_a", a, &["share/common/f.txt"]), &mut records);
    let env = install(env, package("/pkg_b", b, &["share/common/f.txt"]), &mut records);
    let m = env.manifest.to_tomlp();
    assert!(m.contains("A_VAR") && m.contains("atool") && m.contains("share/common"), "{m}");

    // Both packages have the file, so that it stays until the second goes.
    assert!(removable_files(&records[0], &records, "pkg-a").is_empty());
    let manifest = uninstall(&env.manifest, "pkg-a", &records[0], &records);
    records.remove(0);
    assert_eq!(removable_files(&records[0], &records, "pkg-b"), vec!["share/common/f.txt"]);
    let env = saved(env.root, manifest);
    let m = env.manifest.to_tomlp();
    assert!(!m.contains("A_VAR"), "A_VAR should be reverted: {m}");
    assert!(!m.contains("atool"), "atool should be reverted: {m}");
    assert!(m.contains("share/common"), "shared PATH entry must remain: {m}");

    let manifest = uninstall(&env.manifest, "pkg-b", &records[0], &records);
    let m = manifest.to_tomlp();
    assert!(!m.contains("share/common"), "shared PATH entry should be gone: {m}");
    assert!(!m.contains("[activation]"), "activation should be empty: {m}");
}

#[test]
fn package_declared_activation_is_merged_and_rendered() {
    let manifest = "name = \"pytools\"\nversion = \"1.0.0\"\n\n\
         [activation]\nall = #{ path_prepend = [\"share/scripts\"], \
         env = #{ PYTHONHOME = \"$TOOLBOX_PREFIX/share/py\" }# }#\n\n\
         [tools]\ngreet = #{ run = \"python\", \
         args = [\"$TOOLBOX_PREFIX/share/scripts/greet.py\"] }#\n";
    let arrival = package("/pkg", manifest, &["share/scripts/tool.sh"]);
    let env = install(new_env("/env", "pyenv"), arrival, &mut Vec::new());
    let manifest = env.manifest.to_tomlp();
    assert!(manifest.contains("PYTHONHOME"), "manifest: {manifest}");
    assert!(manifest.contains("share/scripts"), "manifest: {manifest}");
    assert!(manifest.contains("[tools]"), "tool not merged: {manifest}");
    assert!(manifest.contains("greet"), "tool not merged: {manifest}");
    assert!(manifest.contains("greet.py"), "tool args not merged: {manifest}");

    let script = render_activate(&env, Shell::Posix, Os::Linux, &map(&[])).unwrap();
    assert!(script.contains("PYTHONHOME"), "script: {script}");
    assert!(script.contains("share/py"), "script: {script}");
    assert!(!script.contains("$TOOLBOX_PREFIX/share/py"), "script: {script}");
    assert!(script.contains("share/scripts"), "PATH addition missing: {script}");
}

#[test]
fn update_repulls_from_local_source() {
    let manifest = |version: &str| format!("name = \"mypkg\"\nversion = \"{version}\"\n");
    let mut records = Vec::new();
    let one = package("/pkg", &manifest("1.0.0"), &["share/data.txt", "share/gone.txt"]);
    let env = install(new_env("/env", "dev"), one, &mut records);
    let old = records[0].files.clone();

    let targets = update(&env.manifest, Some("mypkg"), "dev").ok().unwrap();
    assert_eq!(targets[0].source, InstallSource::Directory("/pkg".to_string()));
    let two = package("/pkg", &manifest("2.0.0"), &["share/data.txt"]);
    let env = install(env, two, &mut records);
    let out = update_text("dev", targets.len());
    assert!(out.contains("Updated 1 package"), "{out}");
    assert!(env.manifest.to_tomlp().contains("2.0.0"));
    assert_eq!(env.manifest.packages.len(), 1);
    assert_eq!(stale_files(&old, &records[0].files), vec!["share/gone.txt"]);
}

#[test]
fn info_summarizes_and_remove_deletes() {
    let manifest = "name = \"demo\"\nversion = \"2.0.0\"\n\n\
         [activation]\nall = #{ env = #{ FOO = \"bar\" }# }#\n\n\
         [tools]\nhi = #{ run = \"echo\" }#\n";
    let arrival = package("/pkg", manifest, &["share/f.txt"]);
    let env = install(new_env("/env", "dev"), arrival, &mut Vec::new());
    let mut reg = Registry::new();
    register(&mut reg, &env.manifest, None, &env.root).unwrap();

    let out = info(&env.manifest, &env.root, None, false, 0);
    assert!(out.contains("demo 2.0.0"), "package missing: {out}");
    assert!(out.contains("hi:"), "tool missing: {out}");
    assert!(out.contains("env var"), "activation missing: {out}");

    check_removal(&env.root, true).unwrap();
    reg.remove("dev").unwrap();
    let listed = list(&reg, &vec![]);
    assert!(!listed.contains("dev"), "env should be unregistered: {listed}");
    assert!(reg.remove("dev").is_err());
}

#[test]
fn remove_refuses_non_env_directory() {
    let e = check_removal("/env", false).unwrap_err();
    assert!(e.contains("refusing to delete"));
}

fn act(env: &mut Env, name: &str, action: ConfigAction) -> Option<String> {
    let shown = config_dispatch(&mut env.manifest, name, &action).ok()?;
    *env = saved(env.root.clone(), env.manifest.dup());
    Some(shown)
}

#[test]
fn config_edits_activation_and_renders() {
    let mut env = new_env("/env", "cfgenv");
    let all = || "all".to_string();
    let set = |key: &str, value: &str| ConfigAction::SetEnv {
        key: key.to_string(),
        value: value.to_string(),
        os: "all".to_string(),
    };
    act(&mut env, "cfgenv", set("GREETING", "hello")).unwrap();
    act(&mut env, "cfgenv", set("EDITOR", "$ENV.EDITOR ?? \"vim\"")).unwrap();
    act(&mut env, "cfgenv", ConfigAction::AddPath { path: "share/bin".to_string(), os: all() })
        .unwrap();

    let shown = config_show("cfgenv", &env.manifest);
    assert!(shown.contains("GREETING = hello"), "{shown}");
    assert!(shown.contains("EDITOR = $ENV.EDITOR ?? \"vim\""), "{shown}");
    assert!(shown.contains("PATH += share/bin"), "{shown}");

    let host = map(&[("EDITOR", "nano")]);
    let script = render_activate(&env, Shell::Posix, Os::Linux, &host).unwrap();
    assert!(script.contains("GREETING=\"hello\""), "{script}");
    assert!(script.contains("EDITOR=\"nano\""), "{script}");
    assert!(script.contains("share/bin"), "{script}");

    let unset = |key: &str| ConfigAction::UnsetEnv { key: key.to_string(), os: "all".to_string() };
    act(&mut env, "cfgenv", unset("GREETING")).unwrap();
    act(&mut env, "cfgenv", ConfigAction::RemovePath { path: "share/bin".to_string(), os: all() })
        .unwrap();
    let shown = act(&mut env, "cfgenv", ConfigAction::Show).unwrap();
    assert!(!shown.contains("GREETING"), "{shown}");
    assert!(!shown.contains("share/bin"), "{shown}");
    assert!(shown.contains("EDITOR ="), "template var should remain: {shown}");
    assert!(act(&mut env, "cfgenv", unset("NOPE")).is_none());
}

fn add_tool(run: &str, args: &[&str], restart: &str) -> ConfigAction {
    ConfigAction::AddTool {
        name: "ver".to_string(),
        run: run.to_string(),
        args: args.iter().map(|s| s.to_string()).collect(),
        env_vars: vec![],
        restart: restart.to_string(),
    }
}

/// What `name` comes to on a Linux host without directories on its PATH.
fn target(env: &Env, name: &str) -> Target {
    let exts = program_exts(None, Os::Linux);
    which(env, Os::Linux, 0, name, &exts, &map(&[])).unwrap()
}

#[test]
fn tool_lifecycle_via_cli() {
    let mut env = new_env("/env", "tenv");
    act(&mut env, "tenv", add_tool("/bin/toolbox", &["--version"], "no")).unwrap();
    let shown = config_show("tenv", &env.manifest);
    assert!(shown.contains("ver:"), "tool not shown: {shown}");
    assert!(matches!(target(&env, "ver"), Target::Tool(_)));
    act(&mut env, "tenv", ConfigAction::RemoveTool { name: "ver".to_string() }).unwrap();
    assert!(matches!(target(&env, "ver"), Target::Program(_)));
}

#[test]
fn runs_declared_tool_raw_and_unknown() {
    let env = new_env("/env", "tenv");
    let mut text = env.manifest.to_tomlp();
    text.push_str("\n[tools]\nver = #{ run = \"/bin/toolbox\", args = [\"--version\"] }#\n");
    let env = Env::load("/env", true, &text).unwrap();

    let Target::Tool(tool) = target(&env, "ver") else {
        panic!();
    };
    assert_eq!(tool.search, Search::InRoot("/bin/toolbox".to_string()));
    assert_eq!(
        target(&env, "/bin/toolbox"),
        Target::Program(Search::AsPath("/bin/toolbox".to_string()))
    );
    let cmd = "nope-not-a-real-thing-xyz";
    assert!(matches!(target(&env, cmd), Target::Program(Search::Probe(_))));
    let text = RunError::NotRunnable.message(cmd, "tenv", &env.manifest);
    assert!(text.contains("not a declared tool"), "{text}");
    assert!(text.contains("ver"), "error should list declared tools: {text}");
}

#[test]
fn which_resolves_tool_via_flag_and_active_env() {
    let mut env = new_env("/env", "dev");
    act(&mut env, "dev", add_tool("/bin/toolbox", &[], "no")).unwrap();
    let Target::Tool(tool) = target(&env, "ver") else {
        panic!();
    };
    assert_eq!(tool.value, "/bin/toolbox");
    assert_eq!(which_env(Some("dev"), None).unwrap(), "dev");
    assert_eq!(which_env(None, Some("dev")).unwrap(), "dev");

    // A name that is neither a tool nor a file on PATH stands for nothing.
    let Target::Program(search) = target(&env, "nope-not-real-xyz") else {
        panic!();
    };
    let files = [(SearchDir::InEnv("linux/bin".to_string()), "toolbox"), (SearchDir::Host(0), "ver")];
    assert_eq!(found(&search, &files), None);
    assert_eq!(
        RunError::Unknown.message("nope-not-real-xyz", "dev", &env.manifest),
        "'nope-not-real-xyz' is not a declared tool or a program on the PATH of env 'dev'"
    );
    assert!(which_env(None, None).unwrap_err().contains("TOOLBOX_ACTIVE_ENV"));
}

/// The first of the places at which there is a file, as the search goes.
fn found(search: &Search, files: &[(SearchDir, &str)]) -> Option<(usize, String)> {
    let Search::Probe(places) = search else {
        return None;
    };
    places
        .iter()
        .position(|(d, n)| files.iter().any(|(x, f)| x == d && f == n))
        .map(|i| (i, places[i].1.clone()))
}

#[test]
fn resolve_program_finds_executable_in_env_bin() {
    let m = new_env("/env", "e").manifest;
    for (os, bin, file) in [
        (Os::Linux, "linux/bin", "tool"),
        (Os::Macos, "macos/bin", "tool"),
        (Os::Windows, "windows/bin", "tool.exe"),
    ] {
        let search = resolve_program(&m, os, 1, "tool", &program_exts(None, os));
        let files =
            [(SearchDir::Host(0), file), (SearchDir::InEnv(bin.to_string()), file)];
        let Search::Probe(places) = &search else {
            panic!();
        };
        let (i, name) = found(&search, &files).unwrap();
        assert_eq!(name, file);
        assert_eq!(places[i].0, SearchDir::InEnv(bin.to_string()));
    }
}

#[test]
fn resolve_program_returns_none_for_missing() {
    let m = new_env("/env", "e").manifest;
    let exts = program_exts(None, Os::Linux);
    let search = resolve_program(&m, Os::Linux, 2, "definitely-not-a-real-binary-xyz123", &exts);
    assert_eq!(found(&search, &[(SearchDir::Host(0), "tool")]), None);
}

#[test]
fn service_start_status_stop() {
    let mut env = new_env("/env", "dev");
    act(&mut env, "dev", add_tool("/bin/toolbox", &["__sleep", "60000"], "no")).unwrap();
    start_service(&env.manifest, "ver", None, false).unwrap();
    let running = ServiceState {
        env: "dev".to_string(),
        tool: "ver".to_string(),
        pid: 4242,
        log: "/run/dev/ver.log".to_string(),
        started_at: 10,
    };
    let text = status("dev", &vec![running], &vec![true], 12);
    assert!(text.contains("ver") && text.contains("running"), "status: {text}");
    let running = ServiceState::all_for_env(vec![ServiceState {
        env: "dev".to_string(),
        tool: "ver".to_string(),
        pid: 4242,
        log: String::new(),
        started_at: 10,
    }]);
    assert!(start_service(&env.manifest, "ver", Some(&running[0]), true).is_err());
    assert_eq!(stop_service(Some(&running[0]), true).unwrap(), Stop::Kill { pid: 4242 });
    let after = status("dev", &vec![], &vec![], 12);
    assert!(!after.contains("running"), "service should be stopped: {after}");
}

#[test]
fn service_restart_always_respawns() {
    let mut env = new_env("/env", "dev");
    act(&mut env, "dev", add_tool("/bin/toolbox", &["__sleep", "300"], "always")).unwrap();
    let policy = env.manifest.tools.get("ver").unwrap().restart;
    assert_eq!(policy, RestartPolicy::Always);
    let mut log = String::new();
    for restarts in 0..4u64 {
        match on_exit(policy, true, restarts) {
            Supervision::Restart { after } => {
                log.push_str(&restart_line("flaky", "exit status: 0", after));
                log.push('\n');
            }
            Supervision::Stop => panic!(),
        }
    }
    assert_eq!(
        tail(&log, Some(1)),
        "toolbox: 'flaky' exited (exit status: 0); restarting in 800 ms"
    );
    let supervisor = ServiceState {
        env: "dev".to_string(),
        tool: "flaky".to_string(),
        pid: 7,
        log: "/run/dev/flaky.log".to_string(),
        started_at: 10,
    };
    assert!(status("dev", &vec![supervisor], &vec![true], 12).contains("running"));
}
