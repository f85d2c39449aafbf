//! Scanning for the sentinel and moving an env.

use toolbox::bytes::{contains, find_all, replace_bytes};
use toolbox::commands::{needs_relocation, settle};
use toolbox::relocate::{
    apply, apply_with_prev, compute_slot_len, is_binary_data, is_skipped, last_prefix,
    scan_for_sentinel, BinarySlot, EnvTree, FileError, FileKind, RelocateEntry, RelocateError,
    RelocateIndex, SlotError, TreeFile, PREFIX_SENTINEL,
};
use toolbox::strmap::StrMap;

fn scan(files: &[(&str, &[u8])]) -> RelocateIndex {
    let list: Vec<TreeFile> = files
        .iter()
        .map(|(p, d)| TreeFile {
            components: p.split('/').map(|s| s.to_string()).collect(),
            data: Some(d.to_vec()),
        })
        .collect();
    scan_for_sentinel(&list)
}

fn tree(files: &[(&str, &[u8])]) -> EnvTree {
    let mut m = StrMap::new();
    for (p, d) in files {
        m.insert(p.to_string(), d.to_vec());
    }
    EnvTree { files: m, last_prefix_file: None }
}

fn text_at(t: &EnvTree, path: &str) -> String {
    String::from_utf8(t.files.get(path).unwrap().clone()).unwrap()
}

#[test]
fn text_round_trip() {
    let files: [(&str, &[u8]); 1] = [(
        "script.sh",
        b"#!__TOOLBOX_PREFIX__/bin/sh\necho __TOOLBOX_PREFIX__\n",
    )];
    let idx = scan(&files);
    assert_eq!(idx.entries.len(), 1);
    assert_eq!(idx.entries[0].kind, FileKind::Text);

    let mut t = tree(&files);
    apply(&mut t, &idx, "/new/place").unwrap();
    assert_eq!(
        text_at(&t, "script.sh"),
        "#!/new/place/bin/sh\necho /new/place\n"
    );
    assert_eq!(last_prefix(t.last_prefix_file.as_ref().unwrap()), "/new/place");
}

#[test]
fn text_round_trip_repeated_move() {
    let files: [(&str, &[u8]); 1] = [("a.cfg", b"path=__TOOLBOX_PREFIX__/data\n")];
    let idx = scan(&files);
    let mut t = tree(&files);

    apply(&mut t, &idx, "/x").unwrap();
    assert_eq!(text_at(&t, "a.cfg"), "path=/x/data\n");

    apply(&mut t, &idx, "/y/z").unwrap();
    assert_eq!(text_at(&t, "a.cfg"), "path=/y/z/data\n");

    apply(&mut t, &idx, PREFIX_SENTINEL).unwrap();
    assert_eq!(text_at(&t, "a.cfg"), "path=__TOOLBOX_PREFIX__/data\n");
}

#[test]
fn binary_round_trip_preserves_size() {
    let mut data = vec![0u8; 16];
    data.extend_from_slice(b"__TOOLBOX_PREFIX__/lib/python");
    data.resize(data.len() + 35, 0u8);
    data.extend_from_slice(b"\xff\xff\xff\xff");
    let files: [(&str, &[u8]); 1] = [("bin/a.out", &data)];

    let idx = scan(&files);
    assert_eq!(idx.entries.len(), 1);
    assert_eq!(idx.entries[0].kind, FileKind::Binary);
    assert_eq!(idx.entries[0].binary_slots.len(), 1);
    assert_eq!(idx.entries[0].binary_slots[0].slot_len, 29);
    assert_eq!(idx.entries[0].binary_slots[0].offset, 16);

    let mut t = tree(&files);
    apply(&mut t, &idx, "/x").unwrap();
    let after = t.files.get("bin/a.out").unwrap();
    assert_eq!(after.len(), data.len());
    let slot = &after[16..16 + 29];
    assert!(slot.starts_with(b"/x/lib/python"));
    assert!(slot[b"/x/lib/python".len()..].iter().all(|&b| b == 0));
    assert_eq!(&after[after.len() - 4..], b"\xff\xff\xff\xff");
}

#[test]
fn binary_round_trip_repeated_move_through_shorter_then_longer() {
    let mut data = vec![0u8; 4];
    data.extend_from_slice(b"__TOOLBOX_PREFIX__/lib/x");
    data.resize(data.len() + 40, 0u8);
    let files: [(&str, &[u8]); 1] = [("bin/a.out", &data)];
    let original_len = data.len();

    let idx = scan(&files);
    let mut t = tree(&files);
    apply(&mut t, &idx, "/a").unwrap();
    let mid = t.files.get("bin/a.out").unwrap();
    assert_eq!(mid.len(), original_len);
    assert!(mid[4..].starts_with(b"/a/lib/x"));

    apply(&mut t, &idx, "/much/longer/path").unwrap();
    let after = t.files.get("bin/a.out").unwrap();
    assert_eq!(after.len(), original_len);
    assert!(after[4..].starts_with(b"/much/longer/path/lib/x"));

    apply(&mut t, &idx, PREFIX_SENTINEL).unwrap();
    assert_eq!(t.files.get("bin/a.out").unwrap(), &data);
}

#[test]
fn binary_too_long_fails() {
    let mut data = vec![0u8; 4];
    data.extend_from_slice(b"__TOOLBOX_PREFIX__/x");
    data.push(0);
    let files: [(&str, &[u8]); 1] = [("bin/a.out", &data)];

    let idx = scan(&files);
    let mut t = tree(&files);
    let err = apply(&mut t, &idx, "/way/too/long/replacement/path");
    assert!(err.is_err());
    assert_eq!(
        err.unwrap_err(),
        RelocateError::Validate {
            entry: 0,
            cause: FileError::Slot { slot: 0, error: SlotError::TooLong { needed: 32 } }
        }
    );
    assert_eq!(t.files.get("bin/a.out").unwrap(), &data);
    assert_eq!(t.last_prefix_file, None);
    apply(&mut t, &idx, "/eighteen/bytes/xx").unwrap();
}

#[test]
fn skips_toolbox_metadata() {
    let idx = scan(&[(".toolbox/foo", b"__TOOLBOX_PREFIX__")]);
    assert_eq!(idx.entries.len(), 0);
}

#[test]
fn apply_is_idempotent_for_same_prefix() {
    let files: [(&str, &[u8]); 1] = [("a.sh", b"__TOOLBOX_PREFIX__/x\n")];
    let idx = scan(&files);
    let mut t = tree(&files);
    apply(&mut t, &idx, "/p").unwrap();
    let before = text_at(&t, "a.sh");
    apply(&mut t, &idx, "/p").unwrap();
    let after = text_at(&t, "a.sh");
    assert_eq!(before, after);
    assert_eq!(after, "/p/x\n");
}

#[test]
fn only_files_with_the_sentinel_are_indexed() {
    let list = vec![
        TreeFile { components: vec!["a".to_string()], data: Some(b"nothing".to_vec()) },
        TreeFile { components: vec!["b".to_string()], data: None },
        TreeFile {
            components: vec!["d".to_string(), "x\\y".to_string()],
            data: Some(b"__TOOLBOX_PREFIX__".to_vec()),
        },
    ];
    let idx = scan_for_sentinel(&list);
    assert_eq!(
        idx.entries,
        vec![RelocateEntry {
            path: "d/x/y".to_string(),
            kind: FileKind::Text,
            binary_slots: vec![]
        }]
    );
    assert!(is_skipped(&vec![".toolbox".to_string()], 1));
    assert!(is_skipped(&vec!["a".to_string()], 268435457));
    assert!(!is_skipped(&vec!["a".to_string()], 268435456));
}

#[test]
fn a_late_nul_is_text() {
    let mut data = vec![b'a'; 8192];
    assert!(!is_binary_data(&data));
    data.push(0);
    assert!(!is_binary_data(&data));
    data[8191] = 0;
    assert!(is_binary_data(&data));
    assert_eq!(compute_slot_len(b"ab\0c", 0), 2);
    assert_eq!(compute_slot_len(b"ab\0c", 3), 1);
    assert_eq!(compute_slot_len(b"ab", 7), 0);
}

#[test]
fn bytes_are_found_and_replaced() {
    assert_eq!(find_all(b"aaaa", b"aa"), vec![0, 2]);
    assert_eq!(find_all(b"aaaa", b""), Vec::<usize>::new());
    assert!(contains(b"xaby", b"ab"));
    assert!(!contains(b"x", b""));
    assert_eq!(replace_bytes(b"aXaaX", b"aX", b"--"), b"--a--".to_vec());
    assert_eq!(replace_bytes(b"abc", b"", b"z"), b"abc".to_vec());
}

#[test]
fn each_slot_problem_is_told() {
    let slot = BinarySlot { offset: 2, slot_len: 4 };
    let idx = RelocateIndex {
        entries: vec![RelocateEntry {
            path: "f".to_string(),
            kind: FileKind::Binary,
            binary_slots: vec![slot],
        }],
    };
    let cause = |data: &[u8]| match apply_with_prev(&mut tree(&[("f", data)]), &idx, "/p", "/qqq") {
        Err(RelocateError::Validate { entry: 0, cause }) => cause,
        other => panic!("{other:?}"),
    };
    let e = cause(b"..../p");
    assert_eq!(e, FileError::Slot { slot: 0, error: SlotError::Mismatch });
    assert_eq!(
        e.message(&idx.entries[0], "F"),
        "slot at offset 2 in F no longer starts with the expected previous prefix \u{2014} env state inconsistent"
    );
    let e = cause(b"../p/");
    assert_eq!(e, FileError::Slot { slot: 0, error: SlotError::OutOfRange });
    assert_eq!(
        e.message(&idx.entries[0], "F"),
        "slot at offset 2 lies beyond the end of F"
    );
    let e = cause(b"../p/x");
    assert_eq!(
        e.message(&idx.entries[0], "F"),
        "new prefix + suffix (6 bytes) exceeds slot of 4 bytes at offset 2 in F \u{2014} env not relocatable to this path"
    );
    let r = apply_with_prev(&mut tree(&[]), &idx, "/p", "/q");
    assert_eq!(
        r,
        Err(RelocateError::Validate { entry: 0, cause: FileError::Missing })
    );
    assert_eq!(
        FileError::Missing.message(&idx.entries[0], "F"),
        "no such file: F"
    );
}

#[test]
fn a_missing_text_file_stops_the_patching_there() {
    let entry = |p: &str| RelocateEntry {
        path: p.to_string(),
        kind: FileKind::Text,
        binary_slots: vec![],
    };
    let idx = RelocateIndex { entries: vec![entry("a"), entry("b"), entry("c")] };
    let mut t = tree(&[("a", b"/p"), ("c", b"/p")]);
    let r = apply_with_prev(&mut t, &idx, "/p", "/q");
    assert_eq!(
        r,
        Err(RelocateError::Patch { entry: 1, cause: FileError::Missing })
    );
    assert_eq!(text_at(&t, "a"), "/q");
    assert_eq!(text_at(&t, "c"), "/p");
    assert_eq!(t.last_prefix_file, None);
}

#[test]
fn the_last_prefix_is_read_without_white_space() {
    assert_eq!(last_prefix(" /a b \r\n"), "/a b");
    assert_eq!(last_prefix("\u{3000}/x\u{a0}"), "/x");
    let files: [(&str, &[u8]); 1] = [("a", b"/old/x")];
    let idx = RelocateIndex {
        entries: vec![RelocateEntry {
            path: "a".to_string(),
            kind: FileKind::Text,
            binary_slots: vec![],
        }],
    };
    let mut t = tree(&files);
    t.last_prefix_file = Some("/old\n".to_string());
    apply(&mut t, &idx, "/new").unwrap();
    assert_eq!(text_at(&t, "a"), "/new/x");
}

#[test]
fn a_fresh_install_is_settled() {
    let files: [(&str, &[u8]); 2] = [("a", b"__TOOLBOX_PREFIX__/x"), ("b", b"/other")];
    let idx = scan(&files);
    let mut t = tree(&files);
    settle(&mut t, &idx, "/here").unwrap();
    assert_eq!(text_at(&t, "a"), "/here/x");
    assert_eq!(text_at(&t, "b"), "/other");
    assert_eq!(t.last_prefix_file.as_deref(), Some("/here"));
    let mut u = tree(&[("b", b"/other")]);
    settle(&mut u, &RelocateIndex { entries: vec![] }, "/here").unwrap();
    assert_eq!(u.last_prefix_file, None);

    assert!(needs_relocation(&idx, None, false));
    assert!(needs_relocation(&idx, Some("/x"), false));
    assert!(!needs_relocation(&idx, Some("/x"), true));
    assert!(!needs_relocation(&RelocateIndex { entries: vec![] }, None, false));
}

#[test]
fn every_reference_in_a_string_is_rewritten() {
    let data = b"\0__TOOLBOX_PREFIX__/a:__TOOLBOX_PREFIX__/b\0";
    assert_eq!(data.len(), 43);
    let files: [(&str, &[u8]); 1] = [("prog", data)];
    let idx = scan(&files);
    assert_eq!(idx.entries[0].kind, FileKind::Binary);

    let mut t = tree(&files);
    apply_with_prev(&mut t, &idx, PREFIX_SENTINEL, "/x").unwrap();
    let mut moved = b"\0/x/a:/x/b".to_vec();
    moved.resize(43, 0);
    assert_eq!(t.files.get("prog").unwrap(), &moved);

    // A longer prefix moves the later references on, and back.
    apply_with_prev(&mut t, &idx, "/x", "/longer").unwrap();
    let mut longer = b"\0/longer/a:/longer/b".to_vec();
    longer.resize(43, 0);
    assert_eq!(t.files.get("prog").unwrap(), &longer);
    apply_with_prev(&mut t, &idx, "/longer", PREFIX_SENTINEL).unwrap();
    assert_eq!(t.files.get("prog").unwrap(), &data.to_vec());
}
