//! Credentials from the Docker config.

use toolbox::dockercfg::{
    candidate_keys, helper_creds, lookup, AuthEntry, DockerConfig, Query, Step,
};
use toolbox::strmap::StrMap;

fn entry(auth: Option<&str>, username: Option<&str>, password: Option<&str>) -> AuthEntry {
    AuthEntry {
        auth: auth.map(|s| s.to_string()),
        username: username.map(|s| s.to_string()),
        password: password.map(|s| s.to_string()),
    }
}

fn config(key: &str, e: AuthEntry) -> DockerConfig {
    let mut auths = StrMap::new();
    auths.insert(key.to_string(), e);
    DockerConfig { auths, cred_helpers: StrMap::new(), creds_store: None }
}

fn creds(u: &str, p: &str) -> Option<(String, String)> {
    Some((u.to_string(), p.to_string()))
}

#[test]
fn auths_base64_is_decoded() {
    let cfg = config("ghcr.io", entry(Some("Y2Fyc29uOnNlY3JldC10b2tlbg=="), None, None));
    assert_eq!(
        lookup(&cfg, "ghcr.io", &vec![]),
        Step::Done(creds("carson", "secret-token"))
    );
}

#[test]
fn auths_plain_username_password() {
    let cfg = config("ghcr.io", entry(None, Some("me"), Some("pw")));
    assert_eq!(lookup(&cfg, "ghcr.io", &vec![]), Step::Done(creds("me", "pw")));
}

#[test]
fn docker_hub_key_variants_match() {
    let cfg = config("https://index.docker.io/v1/", entry(Some("YTpi"), None, None));
    assert_eq!(lookup(&cfg, "docker.io", &vec![]), Step::Done(creds("a", "b")));
}

#[test]
fn unknown_registry_is_none() {
    let cfg = config("ghcr.io", entry(Some("YTpi"), None, None));
    assert_eq!(lookup(&cfg, "quay.io", &vec![]), Step::Done(None));
}

#[test]
fn empty_marker_entry_is_none() {
    let cfg = config("ghcr.io", entry(None, None, None));
    assert_eq!(lookup(&cfg, "ghcr.io", &vec![]), Step::Done(None));
}

#[test]
fn undecodable_auth_falls_back_to_the_pair() {
    for bad in ["%%%", "YWI=", "/w=="] {
        assert_eq!(
            entry(Some(bad), Some("u"), Some("p")).to_creds(),
            creds("u", "p"),
            "{bad}"
        );
        assert_eq!(entry(Some(bad), Some("u"), None).to_creds(), None);
    }
    assert_eq!(entry(Some("YTpiOmM="), None, None).to_creds(), creds("a", "b:c"));
    assert_eq!(
        entry(None, None, None).creds_from(Some(b"x:y".to_vec())),
        creds("x", "y")
    );
}

#[test]
fn helpers_are_asked_in_order() {
    let mut cfg = config("ghcr.io", entry(None, Some("inline"), Some("pw")));
    cfg.cred_helpers.insert("https://ghcr.io".to_string(), "gh".to_string());
    cfg.creds_store = Some("desktop".to_string());
    let ask = |helper: &str, server: &str| {
        Step::Ask(Query { helper: helper.to_string(), server: server.to_string() })
    };
    assert_eq!(lookup(&cfg, "ghcr.io", &vec![]), ask("gh", "https://ghcr.io"));
    assert_eq!(lookup(&cfg, "ghcr.io", &vec![None]), ask("desktop", "ghcr.io"));
    assert_eq!(
        lookup(&cfg, "ghcr.io", &vec![None, None]),
        ask("desktop", "https://ghcr.io")
    );
    assert_eq!(
        lookup(&cfg, "ghcr.io", &vec![None, creds("h", "s")]),
        Step::Done(creds("h", "s"))
    );
    assert_eq!(
        lookup(&cfg, "ghcr.io", &vec![None, None, None]),
        Step::Done(creds("inline", "pw"))
    );
}

#[test]
fn keys_and_replies() {
    assert_eq!(candidate_keys("x"), vec!["x", "https://x"]);
    assert_eq!(
        candidate_keys("index.docker.io"),
        vec!["index.docker.io", "https://index.docker.io", "https://index.docker.io/v1/"]
    );
    assert_eq!(
        helper_creds(true, "u".to_string(), "s".to_string()),
        creds("u", "s")
    );
    assert_eq!(helper_creds(true, "u".to_string(), String::new()), None);
    assert_eq!(helper_creds(false, "u".to_string(), "s".to_string()), None);
}
