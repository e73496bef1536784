//! The virtual file resolver: path mapping, memoization, the single
//! download attempt and the access-denied boundary.

use flashbang::resolver::{
    FileFault, FileKey, LookupStep, PackageId, ProbeStep, Resolver, RetryStep,
};

fn v(s: &str) -> Vec<u8> {
    s.as_bytes().to_vec()
}

fn pkg(ns: &str, name: &str, major: u32, minor: u32, patch: u32) -> PackageId {
    PackageId { namespace: v(ns), name: v(name), major, minor, patch }
}

#[test]
fn local_ids_map_under_the_workdir_root() {
    let r = Resolver::new(v("cache"));
    let key = FileKey::Local { vpath: v("dir/cards.typ") };
    assert_eq!(r.physical_path(&key), v("cache/workdir/dir/cards.typ"));
}

#[test]
fn package_ids_map_under_the_package_cache_root() {
    let r = Resolver::new(v("cache"));
    let key = FileKey::Package { pkg: pkg("preview", "example", 1, 2, 3), vpath: v("lib.typ") };
    assert_eq!(r.physical_path(&key), v("cache/packages/preview/example/1.2.3/lib.typ"));
}

#[test]
fn archive_url_is_templated_from_the_package_identity() {
    let url = Resolver::archive_url(&pkg("preview", "example", 0, 10, 4));
    assert_eq!(url, v("https://packages.typst.org/preview/example-0.10.4.tar.gz"));
}

#[test]
fn escaping_paths_are_denied_not_missing() {
    let r = Resolver::new(v("cache"));
    let dotdot = FileKey::Local { vpath: v("../secrets") };
    let absolute = FileKey::Local { vpath: v("/etc/hosts") };
    let empty = FileKey::Local { vpath: v("") };
    assert!(matches!(r.lookup(&dotdot), LookupStep::Denied));
    assert!(matches!(r.lookup(&absolute), LookupStep::Denied));
    assert!(matches!(r.lookup(&empty), LookupStep::Denied));
}

#[test]
fn local_file_absent_on_disk_is_missing_without_any_fetch() {
    let mut r = Resolver::new(v("cache"));
    let key = FileKey::Local { vpath: v("absent.typ") };
    match r.lookup(&key) {
        LookupStep::Probe { path } => assert_eq!(path, v("cache/workdir/absent.typ")),
        _ => panic!("expected a disk probe"),
    }
    assert!(matches!(r.note_probe(&key, false), ProbeStep::Missing));
}

#[test]
fn missing_package_triggers_exactly_one_download_attempt() {
    let mut r = Resolver::new(v("cache"));
    let key = FileKey::Package { pkg: pkg("preview", "example", 1, 0, 0), vpath: v("lib.typ") };
    assert!(matches!(r.lookup(&key), LookupStep::Probe { .. }));
    match r.note_probe(&key, false) {
        ProbeStep::Fetch { url, dir } => {
            assert_eq!(url, v("https://packages.typst.org/preview/example-1.0.0.tar.gz"));
            assert_eq!(dir, v("cache/packages/preview/example/1.0.0"));
        },
        _ => panic!("expected the single fetch"),
    }
    // A registry miss is final: the follow-up step can only succeed or be
    // missing, never fetch again.
    assert!(matches!(r.note_fetched(&key, false), RetryStep::Missing));
}

#[test]
fn unsupported_namespace_fails_fast_without_a_fetch() {
    let mut r = Resolver::new(v("cache"));
    let key = FileKey::Package { pkg: pkg("internal", "example", 1, 0, 0), vpath: v("lib.typ") };
    assert!(matches!(r.lookup(&key), LookupStep::Probe { .. }));
    assert!(matches!(r.note_probe(&key, false), ProbeStep::Missing));
}

#[test]
fn discovered_files_are_memoized_and_contents_fill_once() {
    let mut r = Resolver::new(v("cache"));
    let key = FileKey::Local { vpath: v("a.typ") };
    assert!(matches!(r.lookup(&key), LookupStep::Probe { .. }));
    let slot = match r.note_probe(&key, true) {
        ProbeStep::Have { slot } => slot,
        _ => panic!("expected the file to be memoized"),
    };
    match r.lookup(&key) {
        LookupStep::Have { slot: s2 } => assert_eq!(s2, slot),
        _ => panic!("expected the memoized slot"),
    }
    assert!(r.slot_text(slot).is_none());
    r.fill_text(slot, Ok(v("first")));
    r.fill_text(slot, Ok(v("second")));
    match r.slot_text(slot) {
        Some(Ok(content)) => assert_eq!(content, &v("first")),
        _ => panic!("expected the first value to stick"),
    }
    assert!(r.slot_raw(slot).is_none());
    r.fill_raw(slot, Err(FileFault::NotFound));
    match r.slot_raw(slot) {
        Some(Err(FileFault::NotFound)) => {},
        _ => panic!("expected the cached failure"),
    }
}

#[test]
fn reset_forgets_every_slot() {
    let mut r = Resolver::new(v("cache"));
    let key = FileKey::Local { vpath: v("a.typ") };
    r.lookup(&key);
    r.note_probe(&key, true);
    r.reset();
    assert!(matches!(r.lookup(&key), LookupStep::Probe { .. }));
}
