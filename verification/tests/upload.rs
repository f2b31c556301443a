//! What is uploaded for a file.
use nix_ninja::upload::{
    env_shebang, new_opaque_file, patched_env_shebang, patched_script, shebang_program,
    upload_bytes, upload_place, walk_note, UploadBytes,
};

#[test]
fn env_shebang_patched_only_when_exec_and_simple() {
    let body = b"#!/usr/bin/env sh\nbody\n";
    assert_eq!(shebang_program(true, 0o755, body).as_deref(), Some("sh"));
    let patched = patched_env_shebang(true, 0o755, body, Some("/bin/sh")).expect("patched");
    let out = String::from_utf8(patched).unwrap();
    assert!(out.starts_with("#!/") && !out.contains("/usr/bin/env"));
    assert!(out.ends_with("body\n"));
    assert_eq!(out, "#!/bin/sh\nbody\n");
    assert_eq!(shebang_program(true, 0o644, body), None);
    assert!(patched_env_shebang(true, 0o644, body, Some("/bin/sh")).is_none());
    let exotic = b"#!/usr/bin/env -S sh -e\nbody\n";
    assert!(patched_env_shebang(true, 0o755, exotic, Some("/bin/sh")).is_none());
    assert!(patched_env_shebang(false, 0o755, body, Some("/bin/sh")).is_none());
    assert!(patched_env_shebang(true, 0o755, body, None).is_none());
    for mode in [0o100, 0o010, 0o001] {
        assert_eq!(shebang_program(true, mode, body).as_deref(), Some("sh"), "{mode:o}");
    }
}

#[test]
fn only_one_plain_word_is_an_interpreter() {
    assert_eq!(env_shebang(b"#!/usr/bin/env  python3\t\nx"), Some("python3".to_string()));
    assert_eq!(env_shebang(b"#!/usr/bin/env python3 -u\nx"), None);
    assert_eq!(env_shebang(b"#!/usr/bin/env python3\t-u\nx"), None);
    assert_eq!(env_shebang(b"#!/usr/bin/env \nx"), None);
    assert_eq!(env_shebang(b"#!/usr/bin/env -i\nx"), None);
    assert_eq!(env_shebang(b"#!/bin/sh\nx"), None);
    assert_eq!(env_shebang(b"#!/usr/bin/env sh"), None, "no first line");
    assert_eq!(env_shebang(b"#!/usr/bin/env \xff\nx"), None, "no text");
    assert_eq!(patched_script(b"no newline", "/bin/sh"), b"no newline");
}

#[test]
fn an_upload_lies_where_the_build_directory_sees_it() {
    assert_eq!(upload_place("/b/s/build", "/b/s/src/a.c"), "../src/a.c");
    assert_eq!(upload_place("/b/s/build", "gen/a.h"), "gen/a.h");
    let f = new_opaque_file("/b/s/build", "/b/s/build/a.c", "hash-a.c");
    assert_eq!(f.build_path, "a.c");
    assert_eq!(f.derived_path.store_path, "hash-a.c");
    assert_eq!(f.rel_path, None);
}

#[test]
fn the_bytes_are_those_of_the_first_rewrite_that_applies() {
    let map = vec![("/real".to_string(), "/fake".to_string())];
    let pick = |script: Option<Vec<u8>>, data: Option<&[u8]>, canonical: &str, text: Option<&str>| {
        upload_bytes(script, data, &map, canonical, text, "/tmp/b")
    };
    assert_eq!(
        pick(Some(b"s".to_vec()), Some(b"/real"), "/x", None),
        UploadBytes::Script(b"s".to_vec())
    );
    assert_eq!(
        pick(None, Some(b"a/real/b"), "/x", None),
        UploadBytes::Rewritten(b"a/fake/b".to_vec())
    );
    assert_eq!(
        pick(None, Some(b"/tmp/b/x"), "/d/CXXDependInfo.json", Some("/tmp/b/x")),
        UploadBytes::DependInfo("/build/source/build/x".to_string())
    );
    assert_eq!(
        pick(None, Some(b"plain"), "/d/CXXDependInfo.json", Some("plain")),
        UploadBytes::AsIs
    );
    assert_eq!(pick(None, Some(b"/tmp/b"), "/d/other.json", None), UploadBytes::AsIs);
    assert_eq!(pick(None, None, "/d/dir", None), UploadBytes::AsIs);
}

#[test]
fn a_failed_walk_says_how_many_files_it_had() {
    assert_eq!(
        walk_note(3, "d"),
        "uploading 3 file(s) found by the build-directory walk of d"
    );
}
