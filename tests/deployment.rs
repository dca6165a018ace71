use std::collections::HashMap;

use windows_macros::arch::{target_arch_dir, ConfigError};
use windows_macros::deploy::{build_root, find_profile_dirs, mirror, EntryKind, TreeEntry};
use windows_macros::text::same_text;

fn dir(parts: &[&str]) -> TreeEntry {
    TreeEntry { path: parts.iter().map(|p| p.to_string()).collect(), kind: EntryKind::Directory, content: vec![] }
}

fn file(parts: &[&str], bytes: &[u8]) -> TreeEntry {
    TreeEntry { path: parts.iter().map(|p| p.to_string()).collect(), kind: EntryKind::File, content: bytes.to_vec() }
}

fn as_map(entries: &[TreeEntry]) -> HashMap<Vec<String>, (EntryKind, Vec<u8>)> {
    let mut m = HashMap::new();
    for e in entries {
        m.insert(e.path.clone(), (e.kind, e.content.clone()));
    }
    m
}

#[test]
fn known_architectures_map_to_directories() {
    assert_eq!(target_arch_dir("x86_64"), Ok("x64".to_string()));
    assert_eq!(target_arch_dir("x86"), Ok("x86".to_string()));
    assert_eq!(target_arch_dir("arm"), Ok("arm".to_string()));
    assert_eq!(target_arch_dir("aarch64"), Ok("arm64".to_string()));
}

#[test]
fn unknown_architecture_is_fatal() {
    assert_eq!(target_arch_dir("riscv64"), Err(ConfigError::UnknownArchitecture("riscv64".to_string())));
    assert_eq!(target_arch_dir(""), Err(ConfigError::UnknownArchitecture(String::new())));
    assert_eq!(target_arch_dir("x86_64 "), Err(ConfigError::UnknownArchitecture("x86_64 ".to_string())));
}

#[test]
fn compares_text_exactly() {
    assert!(same_text("release", "release"));
    assert!(!same_text("release", "Release"));
    assert!(!same_text("release", "releases"));
}

#[test]
fn mirror_twice_equals_mirror_once_and_keeps_additions() {
    let source = vec![dir(&["bin"]), file(&["bin", "a.dll"], b"AAA"), file(&["b.dll"], b"BB")];
    let mut once = vec![file(&["keep.txt"], b"k"), file(&["b.dll"], b"old")];
    mirror(&mut once, &source);
    let expected = as_map(&once);
    assert_eq!(expected.get(&vec!["b.dll".to_string()]), Some(&(EntryKind::File, b"BB".to_vec())));
    assert_eq!(expected.get(&vec!["keep.txt".to_string()]), Some(&(EntryKind::File, b"k".to_vec())));
    assert_eq!(expected.len(), 4);

    let mut twice = once.clone();
    mirror(&mut twice, &source);
    assert_eq!(as_map(&twice), expected);

    let mut with_extra = once.clone();
    with_extra.push(file(&["bin", "extra.pdb"], b"x"));
    mirror(&mut with_extra, &source);
    let m = as_map(&with_extra);
    assert_eq!(m.get(&vec!["bin".to_string(), "extra.pdb".to_string()]), Some(&(EntryKind::File, b"x".to_vec())));
    assert_eq!(m.len(), 5);
}

#[test]
fn mirror_into_empty_copies_everything() {
    let source = vec![dir(&["x64"]), file(&["x64", "lib.dll"], b"123")];
    let mut dest = Vec::new();
    mirror(&mut dest, &source);
    assert_eq!(as_map(&dest), as_map(&source));
}

#[test]
fn profile_found_at_any_depth() {
    let tree = vec![
        dir(&["release"]),
        dir(&["release", "deps"]),
        dir(&["release", "release"]),
        dir(&["a", "b", "c", "d", "release"]),
        dir(&["a", "b", "c", "d", "release", "release"]),
        dir(&["debug"]),
        file(&["x", "release"], b""),
        dir(&["x", "Release"]),
    ];
    let found = find_profile_dirs(&tree, "release");
    assert_eq!(
        found,
        vec![
            vec!["release".to_string()],
            vec!["a".to_string(), "b".to_string(), "c".to_string(), "d".to_string(), "release".to_string()],
        ]
    );
    assert_eq!(find_profile_dirs(&tree, "debug"), vec![vec!["debug".to_string()]]);
    assert!(find_profile_dirs(&tree, "bench").is_empty());
}

#[test]
fn build_root_is_text_before_first_separator() {
    assert_eq!(
        build_root("C:\\repo\\target\\debug\\deps;C:\\Windows;C:\\bin"),
        Ok("C:\\repo\\target\\debug\\deps".to_string())
    );
    assert_eq!(build_root(";rest"), Ok(String::new()));
    assert_eq!(
        build_root("/usr/bin:/bin"),
        Err(ConfigError::MissingPathSeparator("/usr/bin:/bin".to_string()))
    );
}
