//! The outputs of the enclosing build and what stands in for them.
use nix_ninja::outer::{
    hash_text_of, outer_output_names, outer_output_paths, outer_restore_map, outer_rewrite_map,
};
use nix_ninja::rewrite::{rewrite_bytes, rewrite_str};
use nix_ninja::store::{
    extract_store_paths, mentioned_store_paths, program_home, store_object, which_store_path,
    ProgramHome,
};

fn outputs(v: &[(&str, &str)]) -> Vec<(String, String)> {
    v.iter().map(|(n, p)| (n.to_string(), p.to_string())).collect()
}

#[test]
fn outer_rewrite_map_is_same_length_stable_and_reversible() {
    let m = outer_rewrite_map(
        "/nix/store",
        &outputs(&[
            ("out", "/nix/store/29byqlv4flilwli8hc23rm9v1cpn32pl-alsa-lib-1.2.16.1"),
            ("dev", "/nix/store/npbwm562dyvwjim6j7qa1cish2vxlqr0-alsa-lib-1.2.16.1-dev"),
        ]),
    );
    assert_eq!(m.len(), 2);
    for (real, fake) in &m {
        assert_eq!(real.len(), fake.len());
        assert_ne!(real, fake);
        assert!(fake.starts_with("/nix/store/"));
    }
    let moved = outer_rewrite_map(
        "/nix/store",
        &outputs(&[("out", "/nix/store/zzzzzzzzzzzzzzzzzzzzzzzzzzzzzzzz-alsa-lib-1.2.16.1")]),
    );
    assert_eq!(moved[0].1, m[0].1);
    let data = format!("#define DIR \"{}/share\"\0bin", m[0].0);
    let fwd = rewrite_bytes(data.as_bytes(), &m).expect("rewritten");
    assert!(!fwd.windows(m[0].0.len()).any(|w| w == m[0].0.as_bytes()));
    let back: Vec<(String, String)> = m.iter().map(|(r, p)| (p.clone(), r.clone())).collect();
    assert_eq!(rewrite_bytes(&fwd, &back).unwrap(), data.as_bytes());
    assert!(rewrite_bytes(b"nothing here", &m).is_none());
}

#[test]
fn a_self_rpath_is_forwarded_as_a_placeholder_not_dropped() {
    let m = outer_rewrite_map(
        "/nix/store",
        &outputs(&[
            ("out", "/nix/store/29byqlv4flilwli8hc23rm9v1cpn32pl-brotli-1.2.0"),
            ("lib", "/nix/store/npbwm562dyvwjim6j7qa1cish2vxlqr0-brotli-1.2.0-lib"),
        ]),
    );
    let v = "-rpath /nix/store/npbwm562dyvwjim6j7qa1cish2vxlqr0-brotli-1.2.0-lib/lib -L/nix/store/klkb81wkzlz3bpfv6brnh3gwcapy5b4w-boost-1.89.0/lib";
    let fwd = rewrite_str(v, &m);
    assert!(fwd.starts_with("-rpath /nix/store/"), "the pair is kept: {fwd}");
    assert!(
        !fwd.contains("npbwm562dyvwjim6j7qa1cish2vxlqr0"),
        "and names the placeholder: {fwd}"
    );
    assert_eq!(fwd.len(), v.len());
}

/// What is put in is taken out again.
#[test]
fn restoring_undoes_rewriting() {
    let outs = outputs(&[("out", "/nix/store/29byqlv4flilwli8hc23rm9v1cpn32pl-brotli-1.2.0")]);
    let there = outer_rewrite_map("/nix/store", &outs);
    let back = outer_restore_map("/nix/store", &outs);
    let text = "-L/nix/store/29byqlv4flilwli8hc23rm9v1cpn32pl-brotli-1.2.0/lib -O2";
    let moved = rewrite_str(text, &there);
    assert_ne!(moved, text);
    assert_eq!(rewrite_str(&moved, &back), text);
}

#[test]
fn output_names_come_from_the_attrs_file_under_structured_attrs() {
    let attrs = br#"{"outputs":{"out":"/o","dev":"/d","lib":"/l"},"name":"x"}"#;
    let mut names = outer_output_names(None, Some(&attrs[..]));
    names.sort();
    assert_eq!(names, vec!["dev", "lib", "out"]);
    let outs = outputs(&[
        ("out", "/nix/store/29byqlv4flilwli8hc23rm9v1cpn32pl-brotli-1.2.0"),
        ("dev", "/nix/store/8xflmr65ja7ydycn7gxzcnipi7l9wip4-brotli-1.2.0-dev"),
        ("lib", "/nix/store/npbwm562dyvwjim6j7qa1cish2vxlqr0-brotli-1.2.0-lib"),
    ]);
    assert_eq!(
        outer_rewrite_map("/nix/store", &outs).len(),
        3,
        "all three outputs get placeholders"
    );
}

#[test]
fn output_names_come_from_the_variable_or_fall_back() {
    assert_eq!(outer_output_names(Some("out dev"), None), vec!["out", "dev"]);
    assert_eq!(outer_output_names(None, Some(&b"no json"[..])), vec!["out"]);
    assert_eq!(outer_output_names(None, None), vec!["out"]);
}

#[test]
fn the_output_paths_are_those_that_are_set() {
    let outs = outputs(&[("out", "/nix/store/a"), ("dev", "/nix/store/b")]);
    assert_eq!(outer_output_paths(&outs), vec!["/nix/store/a", "/nix/store/b"]);
}

#[test]
fn mentioned_paths_become_inputs_where_they_are_usable() {
    let a = "/nix/store/29byqlv4flilwli8hc23rm9v1cpn32pl-brotli-1.2.0";
    let b = "/nix/store/npbwm562dyvwjim6j7qa1cish2vxlqr0-x.drv";
    let c = "/nix/store/8xflmr65ja7ydycn7gxzcnipi7l9wip4-own";
    let d = "/nix/store/klkb81wkzlz3bpfv6brnh3gwcapy5b4w-gone";
    let text = format!("-I{a}/include {b} -L{c}/lib {d} /nix/store/short-x /etc");
    let found = mentioned_store_paths("/nix/store", &text).unwrap();
    assert_eq!(found, vec![a, b, c, d]);
    let kept = extract_store_paths(&found, &vec![true, true, true, false], &vec![c.to_string()]);
    assert_eq!(kept, vec![a]);
}

#[test]
fn the_store_directory_is_matched_literally() {
    let p = "/nix.store/29byqlv4flilwli8hc23rm9v1cpn32pl-brotli";
    assert_eq!(mentioned_store_paths("/nix.store", p).unwrap(), vec![p]);
    let other = "/nixxstore/29byqlv4flilwli8hc23rm9v1cpn32pl-brotli";
    assert!(mentioned_store_paths("/nix.store", other).unwrap().is_empty());
}

#[test]
fn a_file_belongs_to_the_object_it_lies_in() {
    assert_eq!(
        store_object("/nix/store", "/nix/store/aaa-glibc/include/stdio.h"),
        Some("/nix/store/aaa-glibc".to_string())
    );
    assert_eq!(store_object("/nix/store", "/nix/store"), None);
    assert_eq!(store_object("/nix/store", "/etc/passwd"), None);
}

#[test]
fn a_program_belongs_to_the_object_above_its_directory() {
    assert_eq!(
        program_home("/nix/store", "/nix/store/aaa-gcc/bin/gcc"),
        ProgramHome::Object("/nix/store/aaa-gcc".to_string())
    );
    assert_eq!(program_home("/nix/store", "/usr/bin/gcc"), ProgramHome::Outside);
    assert_eq!(program_home("/", "/"), ProgramHome::Nowhere);
    assert_eq!(
        which_store_path("/nix/store", "gcc", Some("/nix/store/a".to_string())).ok(),
        Some("/nix/store/a".to_string())
    );
    match which_store_path("/nix/store", "gcc", None) {
        Ok(_) => panic!("a program outside the store has no store path"),
        Err(e) => assert_eq!(
            e.message(),
            "gcc resolved to a path outside the Nix store (/nix/store)"
        ),
    }
}

#[test]
fn a_digest_is_spelled_like_a_store_hash() {
    assert_eq!(hash_text_of(&vec![0, 1, 31, 32, 255, 14]), "01z0zf");
}

#[test]
fn bytes_and_text_are_rewritten_alike() {
    let map = outputs(&[("\u{e9}t\u{e9}", "xyzuv"), ("ab", "\u{e9}")]);
    for s in ["\u{e9}t\u{e9} ab \u{e9}", "abab\u{1F600}ab", "t\u{e9}", ""] {
        let want = rewrite_str(s, &map);
        let got = rewrite_bytes(s.as_bytes(), &map).unwrap_or(s.as_bytes().to_vec());
        assert_eq!(got, want.as_bytes());
    }
    assert_eq!(rewrite_str("ab \u{e9}t\u{e9}", &map), "\u{e9} xyzuv");
}
