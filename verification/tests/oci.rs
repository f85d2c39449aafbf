//! Packages as artifacts.

use sha2::{Digest, Sha256};
use std::io::Read;
use toolbox::manifest::{ActivationBlock, Manifest, Tool};
use toolbox::oci::{
    build_layer, cached_blob_path, check_digest, copied_files, detect_platforms, extract_dir,
    extract_layer, oci_cache_dir, overlay_dirs, plan_pull, plan_push, prepare_push, pull_summary,
    push_auth, recorded_files, registry_of, verify_digest, wrong_type_message, DigestError,
    LayerEntry, OverlayStep, PackageConfig, Present, PushError, PushOptions, RefParts, RegistryAuth,
    WalkEntry, WalkKind, CONFIG_MEDIA_TYPE, LAYER_MEDIA_TYPE,
};
use toolbox::strmap::StrMap;

#[test]
fn digest_verify_ok() {
    let data = b"hello toolbox";
    let digest = format!("sha256:{}", hex::encode(Sha256::digest(data)));
    verify_digest(data, &digest).unwrap();
}

#[test]
fn digest_verify_mismatch() {
    verify_digest(
        b"x",
        "sha256:0000000000000000000000000000000000000000000000000000000000000000",
    )
    .unwrap_err();
}

#[test]
fn digest_verify_bad_algorithm() {
    verify_digest(b"x", "md5:00").unwrap_err();
}

#[test]
fn digest_errors_are_told() {
    let empty = "e3b0c44298fc1c149afbf4c8996fb92427ae41e4649b934ca495991b7852b855";
    verify_digest(b"", &format!("sha256:{empty}")).unwrap();
    let e = verify_digest(b"", "sha256:00").unwrap_err();
    assert_eq!(
        e.message("sha256:00"),
        format!("digest mismatch: expected sha256:00, got sha256:{empty}")
    );
    let e = verify_digest(b"", "nothing").unwrap_err();
    assert_eq!(e, DigestError::Malformed);
    assert_eq!(e.message("nothing"), "malformed digest: nothing");
    let e = verify_digest(b"", "md5:00").unwrap_err();
    assert_eq!(e.message("md5:00"), "unsupported digest algorithm: md5");
    check_digest(&vec![0, 15, 160, 255], "sha256:000fa0ff").unwrap();
    assert!(check_digest(&vec![0, 15, 160, 255], "sha256:000FA0FF").is_err());
}

#[test]
fn cached_blob_path_strips_algorithm() {
    assert_eq!(
        cached_blob_path(vec!["/c".to_string()], "sha256:abc123"),
        vec!["/c", "abc123"]
    );
    assert_eq!(
        cached_blob_path(vec!["/c".to_string()], "abc"),
        vec!["/c", "abc"]
    );
    assert_eq!(
        oci_cache_dir(vec!["/r".to_string()]),
        vec!["/r", "cache", "oci", "blobs", "sha256"]
    );
}

fn tarball(files: &[(&str, &[u8])]) -> Vec<u8> {
    let mut builder = tar::Builder::new(Vec::new());
    for (path, data) in files {
        let mut header = tar::Header::new_gnu();
        header.set_size(data.len() as u64);
        header.set_mode(0o644);
        header.set_cksum();
        builder.append_data(&mut header, path, *data).unwrap();
    }
    builder.into_inner().unwrap()
}

#[test]
fn extract_layer_round_trip() {
    let payload = b"#!__TOOLBOX_PREFIX__/bin/python\n";
    let tar = tarball(&[("windows/bin/hello.py", payload)]);
    let layer = build_layer(&tar).unwrap();
    assert_ne!(layer, tar);
    let back = extract_layer(&layer).unwrap();
    assert_eq!(back, tar);

    let mut archive = tar::Archive::new(&back[..]);
    let mut entries = Vec::new();
    let mut text = String::new();
    for entry in archive.entries().unwrap() {
        let mut entry = entry.unwrap();
        entry.read_to_string(&mut text).unwrap();
        entries.push(LayerEntry {
            path: entry.path().unwrap().to_string_lossy().into_owned(),
            is_file: entry.header().entry_type().is_file(),
            unpacked: true,
        });
    }
    assert_eq!(recorded_files(&entries), vec!["windows/bin/hello.py"]);
    assert_eq!(text, "#!__TOOLBOX_PREFIX__/bin/python\n");
    assert!(extract_layer(b"not a zstd stream").is_err());
}

#[test]
fn build_layer_round_trips_through_extract() {
    let present = Present { windows: true, linux: false, macos: false, share: true };
    assert_eq!(overlay_dirs(present).unwrap(), vec!["windows", "share"]);
    let tar = tarball(&[
        ("windows/bin/rg.exe", b"binary"),
        ("share/readme.txt", b"hi"),
    ]);
    assert_eq!(extract_layer(&build_layer(&tar).unwrap()).unwrap(), tar);
}

fn nothing() -> Present {
    Present { windows: false, linux: false, macos: false, share: false }
}

#[test]
fn extract_dir_errors_on_empty_tree() {
    let e = overlay_dirs(nothing()).unwrap_err();
    assert_eq!(
        e.message("/pkg", "r"),
        "no package contents under /pkg (expected windows/, linux/, macos/, or share/)"
    );
}

#[test]
fn build_layer_errors_on_empty_tree() {
    overlay_dirs(nothing()).unwrap_err();
}

#[test]
fn detect_platforms_lists_present_os_dirs() {
    let mut got = detect_platforms(Present {
        windows: true,
        linux: true,
        macos: false,
        share: true,
    });
    got.sort();
    assert_eq!(got, vec!["linux".to_string(), "windows".to_string()]);
}

fn walked(path: &str, kind: WalkKind) -> WalkEntry {
    WalkEntry { components: path.split('/').map(|s| s.to_string()).collect(), kind }
}

#[test]
fn extract_dir_copies_overlay_and_skips_metadata() {
    let present = Present { windows: true, linux: false, macos: false, share: true };
    let steps = extract_dir(
        present,
        &vec![
            walked("windows", WalkKind::Directory),
            walked("windows/bin", WalkKind::Directory),
            walked("windows/bin/rg.exe", WalkKind::File),
            walked("share/link", WalkKind::Other),
            walked("share/x\\y", WalkKind::File),
            walked(".toolbox/relocate.json", WalkKind::File),
            walked("toolbox-env.tomlp", WalkKind::File),
            walked("linux/bin/rg", WalkKind::File),
        ],
    )
    .unwrap();
    assert_eq!(
        steps,
        vec![
            OverlayStep::MakeDir,
            OverlayStep::MakeDir,
            OverlayStep::Copy("windows/bin/rg.exe".to_string()),
            OverlayStep::Skip,
            OverlayStep::Copy("share/x/y".to_string()),
            OverlayStep::Skip,
            OverlayStep::Skip,
            OverlayStep::Skip,
        ]
    );
    assert_eq!(copied_files(&steps), vec!["windows/bin/rg.exe", "share/x/y"]);
    assert_eq!(extract_dir(nothing(), &vec![]).unwrap_err(), PushError::NoContents);
}

#[test]
fn only_laid_down_files_are_recorded() {
    let e = |path: &str, is_file: bool, unpacked: bool| LayerEntry {
        path: path.to_string(),
        is_file,
        unpacked,
    };
    assert_eq!(
        recorded_files(&vec![
            e("linux/bin", false, true),
            e("linux\\bin\\a", true, true),
            e("../escape", true, false),
            e("b", true, true),
        ]),
        vec!["linux/bin/a", "b"]
    );
}

fn options() -> PushOptions {
    PushOptions { name: None, version: None, platforms: vec![], description: None }
}

fn package() -> Manifest {
    let mut activation = StrMap::new();
    activation.insert("all".to_string(), ActivationBlock::default());
    let mut tools = StrMap::new();
    tools.insert("t".to_string(), Tool::default());
    Manifest {
        name: "pkg".to_string(),
        version: "2".to_string(),
        description: Some("d".to_string()),
        packages: vec![],
        activation,
        tools,
    }
}

fn full() -> Present {
    Present { windows: false, linux: true, macos: true, share: false }
}

#[test]
fn push_takes_options_then_reference_then_manifest() {
    let parts = RefParts {
        registry: "ghcr.io".to_string(),
        repository: "me/tools/rg".to_string(),
        tag: Some("1.2".to_string()),
    };
    let c = plan_push(&parts, &options(), None, full()).unwrap();
    assert_eq!(c.name, "rg");
    assert_eq!(c.version, "1.2");
    assert_eq!(c.platforms, vec!["linux", "macos"]);
    assert_eq!(c.description, None);
    assert!(c.tools.is_empty());

    let pkg = package();
    let c = plan_push(&parts, &options(), Some(&pkg), full()).unwrap();
    assert_eq!((c.name.as_str(), c.version.as_str()), ("rg", "1.2"));
    assert_eq!(c.description.as_deref(), Some("d"));
    assert!(c.tools.contains_key("t") && c.activation.contains_key("all"));

    let opts = PushOptions {
        name: Some("n".to_string()),
        version: Some("9".to_string()),
        platforms: vec!["bsd".to_string()],
        description: Some("mine".to_string()),
    };
    let c = plan_push(&parts, &opts, Some(&pkg), full()).unwrap();
    assert_eq!((c.name.as_str(), c.version.as_str()), ("n", "9"));
    assert_eq!(c.platforms, vec!["bsd"]);
    assert_eq!(c.description.as_deref(), Some("mine"));

    let untagged = RefParts { tag: None, ..parts };
    let e = plan_push(&untagged, &options(), None, full()).unwrap_err();
    assert_eq!(e, PushError::NoVersion);
    assert_eq!(
        e.message("s", "r"),
        "no version: pass a tagged reference (e.g. name:1.2.3) or use a version override"
    );
    let c = plan_push(&untagged, &options(), Some(&pkg), full()).unwrap();
    assert_eq!((c.name.as_str(), c.version.as_str()), ("rg", "2"));
    assert_eq!(
        plan_push(&untagged, &options(), Some(&pkg), nothing()).unwrap_err(),
        PushError::NoContents
    );

    let mut other = package();
    other.name = "other".to_string();
    other.version = "9.9.9".to_string();
    let (_, c) = prepare_push("ghcr.io/me/rg:1.2.3", &options(), Some(&other), full()).unwrap();
    assert_eq!((c.name.as_str(), c.version.as_str()), ("rg", "1.2.3"));
}

#[test]
fn references_are_parsed() {
    let (parts, c) = prepare_push("ghcr.io/me/rg:14.1.0", &options(), None, full()).unwrap();
    assert_eq!(parts.registry, "ghcr.io");
    assert_eq!(parts.repository, "me/rg");
    assert_eq!(parts.tag.as_deref(), Some("14.1.0"));
    assert_eq!((c.name.as_str(), c.version.as_str()), ("rg", "14.1.0"));
    let e = prepare_push("Not A Reference", &options(), None, full()).unwrap_err();
    assert_eq!(
        e.message("s", "Not A Reference"),
        "parsing OCI reference \"Not A Reference\": invalid reference format"
    );
    let digest = format!("ghcr.io/me/rg@sha256:{}", "0".repeat(64));
    assert_eq!(
        prepare_push(&digest, &options(), None, full()).unwrap_err(),
        PushError::NoVersion
    );
    assert_eq!(registry_of("ghcr.io/me/rg").unwrap(), "ghcr.io");
    assert_eq!(registry_of("rg").unwrap(), "docker.io");
    assert!(registry_of("").is_err());
}

#[test]
fn only_toolbox_layers_are_fetched() {
    let types = vec![
        LAYER_MEDIA_TYPE.to_string(),
        "text/plain".to_string(),
        LAYER_MEDIA_TYPE.to_string(),
    ];
    assert_eq!(plan_pull(CONFIG_MEDIA_TYPE, &types), Some(vec![0, 2]));
    assert_eq!(plan_pull("text/plain", &types), None);
    assert_eq!(
        wrong_type_message("r", "x"),
        "artifact at r has config mediaType \"x\", expected \"application/vnd.toolbox.package.config.v1+json\""
    );
}

#[test]
fn a_pull_lists_the_files_of_all_layers() {
    let config = PackageConfig {
        name: "p".to_string(),
        version: "1".to_string(),
        platforms: vec![],
        description: None,
        activation: StrMap::new(),
        tools: package().tools,
    };
    let s = pull_summary(
        config,
        &vec![vec!["a".to_string()], vec![], vec!["b".to_string(), "c".to_string()]],
    );
    assert_eq!(s.files, vec!["a", "b", "c"]);
    assert_eq!(s.layer_count, 3);
    assert_eq!((s.name.as_str(), s.version.as_str()), ("p", "1"));
    assert!(s.tools.contains_key("t"));
}

#[test]
fn the_environment_comes_before_docker() {
    let some = |s: &str| Some(s.to_string());
    let docker = || Some(("d".to_string(), "e".to_string()));
    assert_eq!(
        push_auth(some("u"), some("p"), docker()),
        RegistryAuth::Basic("u".to_string(), "p".to_string())
    );
    for (u, p) in [(None, some("p")), (some("u"), None), (some(""), some("p"))] {
        assert_eq!(
            push_auth(u, p, docker()),
            RegistryAuth::Basic("d".to_string(), "e".to_string())
        );
    }
    assert_eq!(push_auth(None, None, None), RegistryAuth::Anonymous);
}
