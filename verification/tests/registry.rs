//! The registry of envs, and where things are kept.

use toolbox::paths::{cache_dir, install_root, os_subdir, registry_path, run_dir, Os};
use toolbox::registry::{Registry, RegistryError};
use toolbox::strmap::StrMap;

#[test]
fn round_trips_through_tomlp() {
    let mut reg = Registry::new();
    reg.insert("tools", r"C:\Users\me\envs\tools").unwrap();
    reg.insert("dev", "/home/me/dev").unwrap();

    let text = reg.to_tomlp();
    let back = Registry::from_tomlp(&text).unwrap();

    assert_eq!(back.envs.len(), 2);
    assert_eq!(back.get("tools").unwrap().path, r"C:\Users\me\envs\tools");
    assert_eq!(back.get("dev").unwrap().path, "/home/me/dev");
}

#[test]
fn empty_registry_round_trips() {
    let reg = Registry::new();
    let text = reg.to_tomlp();
    let back = Registry::from_tomlp(&text).unwrap();
    assert!(back.envs.is_empty());
}

#[test]
fn names_are_registered_once() {
    let mut reg = Registry::new();
    reg.insert("a", "/1").unwrap();
    let e = reg.insert("a", "/2").unwrap_err();
    assert_eq!(e, RegistryError::AlreadyRegistered);
    assert_eq!(e.message("a"), "env 'a' already registered");
    assert_eq!(reg.get("a").unwrap().path, "/1");
    let e = reg.get("b").unwrap_err();
    assert_eq!(e.message("b"), "env 'b' not registered");
    assert_eq!(reg.remove("b").unwrap_err(), RegistryError::NotRegistered);
    reg.remove("a").unwrap();
    assert!(reg.get("a").is_err());
    reg.insert("a", "/2").unwrap();
    assert_eq!(reg.get("a").unwrap().path, "/2");
}

#[test]
fn wrong_entries_are_errors() {
    let e = Registry::from_tomlp("[envs]\na = 1\n").unwrap_err();
    assert_eq!(e.message("r"), "r: envs.a must be a table, found int");
    let e = Registry::from_tomlp("[envs]\na = #{ path = 1 }#\n").unwrap_err();
    assert_eq!(e.message("r"), "r: envs.a is missing a string `path`");
    assert!(Registry::from_tomlp("envs = 3\n").unwrap().envs.is_empty());
}

#[test]
fn a_map_keeps_its_keys_in_order() {
    let mut m: StrMap<String> = StrMap::new();
    for k in ["b", "a", "ab", "B"] {
        m.insert(k.to_string(), k.to_uppercase());
    }
    m.insert("a".to_string(), "again".to_string());
    assert_eq!(m.len(), 4);
    let keys: Vec<&str> = (0..m.len()).map(|i| m.at(i).0.as_str()).collect();
    assert_eq!(keys, vec!["B", "a", "ab", "b"]);
    assert_eq!(m.get("a").unwrap(), "again");
    assert_eq!(m.remove("a"), Some("again".to_string()));
    assert_eq!(m.remove("a"), None);
    assert!(!m.contains_key("a"));
}

#[test]
fn places_follow_the_install_root() {
    assert_eq!(
        install_root(Some("/h"), Some("/d"), Os::Linux).unwrap(),
        vec!["/h"]
    );
    assert_eq!(
        install_root(None, Some("/d"), Os::Linux).unwrap(),
        vec!["/d", "toolbox"]
    );
    assert_eq!(
        install_root(None, Some("D"), Os::Windows).unwrap(),
        vec!["D", "ToolBox"]
    );
    assert_eq!(
        install_root(None, Some("/Library"), Os::Macos).unwrap(),
        vec!["/Library", "ToolBox"]
    );
    assert_eq!(
        install_root(None, None, Os::Windows).unwrap_err(),
        "could not resolve %LOCALAPPDATA%"
    );
    assert_eq!(
        install_root(None, None, Os::Macos).unwrap_err(),
        "could not resolve data dir"
    );
    let root = || vec!["/d".to_string(), "toolbox".to_string()];
    assert_eq!(registry_path(root()), vec!["/d", "toolbox", "registry.tomlp"]);
    assert_eq!(cache_dir(root()), vec!["/d", "toolbox", "cache"]);
    assert_eq!(run_dir(root()), vec!["/d", "toolbox", "run"]);
    assert_eq!(os_subdir(Os::Windows), "windows");
    assert_eq!(os_subdir(Os::Linux), "linux");
    assert_eq!(os_subdir(Os::Macos), "macos");
}
