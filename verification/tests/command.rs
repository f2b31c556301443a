//! Command lines: what they ask for and what they run.
use nix_ninja::command::{
    absolute_file_candidate, accepted_depfile_output_of, command_is_compile, command_program,
    command_words, command_writes_depfile, forwarded_to_tasks, gcc_toolchain_tools_named, generate_frandom_seed,
    is_shell_assignment,
    linker_files, lto_needs_make, remove_frandom_seed, scan_lto_flags, seed_text,
    task_is_lto,
    uses_precompiled_header, wl_file_candidates,
};
use nix_ninja::path::{relative_from, same_project_tree};

#[test]
fn the_wrapper_variables_are_forwarded() {
    for k in [
        "NIX_CFLAGS_COMPILE",
        "NIX_CFLAGS_COMPILE_FOR_TARGET",
        "NIX_LDFLAGS",
        "NIX_CC_WRAPPER_TARGET_HOST_x86_64_unknown_linux_gnu",
        "NIX_BINTOOLS_WRAPPER_TARGET_HOST_x86_64_unknown_linux_gnu",
        "NIX_HARDENING_ENABLE",
    ] {
        assert!(forwarded_to_tasks(k), "{k}");
    }
}

#[test]
fn the_xml_catalog_is_forwarded() {
    assert!(forwarded_to_tasks("XML_CATALOG_FILES"));
}

#[test]
fn the_python_path_is_forwarded() {
    assert!(forwarded_to_tasks("PYTHONPATH"));
}

#[test]
fn the_outer_derivations_own_variables_are_not() {
    for k in [
        "out",
        "PATH",
        "TMPDIR",
        "NIX_BUILD_TOP",
        "XML_CATALOG_FILES_EXTRA",
        "PYTHONPATH_EXTRA",
    ] {
        assert!(!forwarded_to_tasks(k), "{k}");
    }
}

#[test]
fn reads_the_parallel_spellings() {
    assert!(lto_needs_make("gcc -flto=8 a.o -o t", None));
    assert!(lto_needs_make("gcc -flto=auto a.o -o t", None));
    assert!(lto_needs_make("gcc -flto=jobserver a.o -o t", None));
    assert!(lto_needs_make("gcc -O2 -flto=24 -march=znver4 a.o -o t", None));
    assert!(lto_needs_make(r#"gcc "-flto=8" a.o -o t"#, None));
}

#[test]
fn the_serial_looking_spellings_still_need_make() {
    assert!(lto_needs_make("gcc -flto a.o -o t", None));
    assert!(lto_needs_make("gcc -flto=1 a.o -o t", None));
    assert!(lto_needs_make("gcc -flto= a.o -o t", None));
}

#[test]
fn declines_what_is_not_lto() {
    assert!(!lto_needs_make("gcc -c a.c -o a.o", None));
    assert!(!lto_needs_make("gcc -fno-lto a.o -o t", None));
    assert!(!lto_needs_make("gcc -fltrans-output-list=x a.o -o t", None));
}

#[test]
fn the_wrappers_injected_flags_count() {
    let with = Some("-O3 -march=znver4 -flto=8\n");
    assert!(lto_needs_make("gcc -o t a.o b.o", with));
    let without = Some("-O3 -march=znver4\n");
    assert!(!lto_needs_make("gcc -o t a.o b.o", without));
    assert!(lto_needs_make("gcc -flto=auto -o t a.o", without));
    assert!(!lto_needs_make("gcc -o t a.o", None));
}

#[test]
fn a_substring_is_not_the_flag() {
    assert!(!lto_needs_make("gcc -DFLAGS=-flto=8 -c a.c -o a.o", None));
}

const CC: &str = "cc -MD -MF foo.o.d -c foo.c -o foo.o";

#[test]
fn a_gcc_deps_edge_with_a_relative_depfile_is_accepted() {
    assert_eq!(
        accepted_depfile_output_of(Some("foo.o.d"), Some("gcc"), Some(CC), None),
        Some("foo.o.d".to_string())
    );
}

#[test]
fn a_depfile_without_deps_gcc_is_refused() {
    assert_eq!(accepted_depfile_output_of(Some("foo.o.d"), None, Some(CC), None), None);
}

#[test]
fn a_command_that_writes_no_depfile_is_refused() {
    assert_eq!(
        accepted_depfile_output_of(Some("foo.o.d"), Some("gcc"), Some("cc -c foo.c"), None),
        None
    );
}

#[test]
fn a_depfile_outside_the_build_dir_is_refused() {
    for d in ["/tmp/foo.o.d", "../foo.o.d"] {
        assert_eq!(
            accepted_depfile_output_of(Some(d), Some("gcc"), Some(CC), None),
            None,
            "{d} must not be adopted as an output"
        );
    }
}

#[test]
fn an_empty_depfile_path_is_refused() {
    assert_eq!(accepted_depfile_output_of(Some(""), Some("gcc"), Some(CC), None), None);
}

#[test]
fn nasm_naming_a_depfile_without_asking_for_one_is_refused() {
    let nasm = "nasm -f elf64 -I ../src/ -MQ src/cpuid.obj \
                -MF src/cpuid.obj.ndep ../src/x86/cpuid.asm -o src/cpuid.obj";
    assert_eq!(
        accepted_depfile_output_of(Some("src/cpuid.obj.ndep"), Some("gcc"), Some(nasm), None),
        None,
        "-MF alone must not be read as a promise that anything writes it"
    );
}

#[test]
fn the_same_command_with_a_generation_flag_is_accepted() {
    let nasm = "nasm -f elf64 -MD -MQ src/cpuid.obj -MF src/cpuid.obj.ndep ../src/x86/cpuid.asm";
    assert_eq!(
        accepted_depfile_output_of(Some("src/cpuid.obj.ndep"), Some("gcc"), Some(nasm), None),
        Some("src/cpuid.obj.ndep".to_string())
    );
}

#[test]
fn the_depfile_flag_is_honoured_from_the_rspfile() {
    assert_eq!(
        accepted_depfile_output_of(
            Some("foo.o.d"),
            Some("gcc"),
            Some("cc @foo.rsp"),
            Some("-MD -MF foo.o.d -c foo.c")
        ),
        Some("foo.o.d".to_string())
    );
}

#[test]
fn depfile_only_declared_when_the_command_writes_it() {
    let w = command_writes_depfile;
    assert!(!w(Some("g++ -g -flto=auto -fPIC -o foo.o -c foo.cpp"), None));
    assert!(w(Some("gcc -MD -MT a.o -MF a.o.d -o a.o -c a.c"), None));
    assert!(w(Some("gcc -MMD -o a.o -c a.c"), None));
    assert!(!w(Some("gcc -MFa.o.d -o a.o -c a.c"), None));
    assert!(!w(Some("nasm -f elf64 -MQ x.obj -MF x.obj.ndep x.asm -o x.obj"), None));
    assert!(w(Some("gcc @rsp"), Some("-MD -MF a.o.d -c a.c")));
    assert!(w(
        Some("gcc -shared -Wl,--dependency-file=CMakeFiles/x.dir/link.d -o libx.so a.o"),
        None
    ));
    assert!(!w(Some("gcc -I/opt/x-MD/include -o a.o -c a.c"), None));
    assert!(!w(None, None));
}

#[test]
fn a_dash_c_compile_naming_a_so_output_is_a_compile() {
    assert!(command_is_compile(Some("gcc -c threads.c -o threads.so -I../../include")));
}

#[test]
fn a_shared_link_is_not_a_compile() {
    assert!(!command_is_compile(Some("gcc -shared -o libfoo.so.1.2.3 a.o b.o")));
}

#[test]
fn a_shell_dash_c_is_not_the_compilers() {
    assert!(!command_is_compile(Some("/bin/sh -c gcc\\ -shared\\ -o\\ libfoo.so")));
    assert!(!command_is_compile(Some("bash -c ./link.sh")));
}

#[test]
fn a_compile_after_a_shell_wrapper_still_counts() {
    assert!(command_is_compile(Some("/bin/sh -c gcc -c a.c -o a.so")));
}

#[test]
fn no_command_and_unparseable_commands_do_not_claim_a_compile() {
    assert!(!command_is_compile(None));
    assert!(!command_is_compile(Some("gcc -c 'unterminated")));
}

#[test]
fn the_shims_object_suffix_is_still_a_compile() {
    let cmd = "/nix/store/aaaa-gcc/bin/gcc -fPIC -DPIC -I../../include \
         -c threads.c -o threads.so.o";
    assert!(
        command_is_compile(Some(cmd)),
        "the -c is what tells a .so.o compile from a link"
    );
    assert!(!command_is_compile(Some(
        "/nix/store/aaaa-gcc/bin/gcc -shared -o libssh.so.4 a.o b.o"
    )));
    assert!(!command_is_compile(Some("/bin/sh -c \"gcc -shared -o libssh.so.4 a.o\"")));
}

#[test]
fn wl_groups_yield_files_and_skip_output_flags() {
    assert_eq!(wl_file_candidates("--version-script,/src/json-c.sym"), vec!["/src/json-c.sym"]);
    assert_eq!(wl_file_candidates("--version-script=/src/json-c.sym"), vec!["/src/json-c.sym"]);
    assert_eq!(
        wl_file_candidates("--dependency-file,x/link.d,-soname,libx.so.5"),
        Vec::<String>::new()
    );
    assert_eq!(
        wl_file_candidates("-soname=libx.so.5,--version-script,/s/x.map"),
        vec!["/s/x.map"]
    );
    assert_eq!(
        wl_file_candidates("--dependency-file=x/link.d,-Bsymbolic-functions"),
        Vec::<String>::new()
    );
}

#[test]
fn a_quoted_wl_path_is_still_a_candidate() {
    assert_eq!(
        wl_file_candidates("--version-script,\"/build/libssh-0.12.2/src/libssh.map\""),
        vec!["/build/libssh-0.12.2/src/libssh.map"],
        "quotes belong to the ninja text, not to the file name"
    );
    assert_eq!(
        wl_file_candidates("--version-script=\"/src/json-c.sym\""),
        vec!["/src/json-c.sym"]
    );
    assert_eq!(wl_file_candidates("--version-script,'/src/json-c.sym'"), vec!["/src/json-c.sym"]);
    assert_eq!(
        wl_file_candidates("\"-Bsymbolic-functions\""),
        Vec::<String>::new(),
        "a quoted FLAG is not a path"
    );
}

#[test]
fn every_linker_group_of_a_command_is_read() {
    assert_eq!(
        linker_files("gcc -shared -Wl,--version-script,/s/x.map -o l.so a.o -Wl,-T=/s/y.ld"),
        vec!["/s/x.map", "/s/y.ld"]
    );
    assert!(linker_files("gcc -c a.c -o a.o").is_empty());
}

#[test]
fn cmake_pch_use_is_recognised() {
    assert!(uses_precompiled_header(
        "g++ -Winvalid-pch -include /build/source/build/core/CMakeFiles/ZXing.dir/cmake_pch.hxx -c a.cpp"
    ));
}

#[test]
fn an_ordinary_compile_is_not() {
    assert!(!uses_precompiled_header("g++ -O2 -I. -c a.cpp -o a.o"));
}

#[test]
fn the_meson_default_warning_flag_is_not_a_pch() {
    assert!(!uses_precompiled_header(
        "c++ -Ihello.p -I. -Wall -Winvalid-pch -O0 -g -MD -MF x.d -o x.o -c ../src/main.cpp"
    ));
}

#[test]
fn a_flag_that_merely_starts_with_the_same_letters_is_not() {
    assert!(!uses_precompiled_header("g++ --includedir=/usr/include -c a.cpp"));
}

#[test]
fn absolute_cmdline_args_rebase_into_the_build_tree() {
    let cand = absolute_file_candidate;
    assert_eq!(
        cand("/build/source/Source/Lib/Codec/ConfigureGitVersion.cmake"),
        Some("/build/source/Source/Lib/Codec/ConfigureGitVersion.cmake".to_string())
    );
    assert_eq!(
        cand("INPUT_FILE=/build/source/Source/Lib/Codec/EbVersion.h.in"),
        Some("/build/source/Source/Lib/Codec/EbVersion.h.in".to_string())
    );
    assert_eq!(cand("../Source/x.c"), None);
    assert_eq!(cand("OUTPUT_FILE=EbVersion.h"), None);
    let base = "/build/source/build";
    assert_eq!(
        relative_from("/build/source/Source/a.cmake", base),
        Some("../Source/a.cmake".to_string())
    );
    assert!(!same_project_tree(base, "/etc/passwd"));
    assert!(same_project_tree(base, "/build/source/x"));
}

#[test]
fn last_lto_flag_wins_and_fat_changes_nothing() {
    let scan = |c: &str| scan_lto_flags(c, false);
    assert!(scan("gcc -O3 -flto=8 -c a.c -o a.o"));
    assert!(scan("gcc -flto -c a.c"));
    assert!(scan("gcc -flto=auto -ffat-lto-objects -c a.c"));
    assert!(!scan("gcc -flto=8 -fno-lto -c a.c"), "later -fno-lto wins");
    assert!(scan("gcc -fno-lto -flto -c a.c"), "later -flto wins");
    assert!(!scan("gcc -O3 -c a.c -o a.o"));
    assert!(!scan("gcc -c /src/flto/a.c"));
}

#[test]
fn task_is_lto_sees_the_wrapper_baseline_and_the_opt_out_after_it() {
    assert!(!scan_lto_flags("gcc -O2 -c a.c", false));
    assert!(scan_lto_flags("gcc -O2 -c a.c", true));
    assert!(!scan_lto_flags("-O3 -fno-lto", scan_lto_flags("gcc -O2 -c a.c", true)));
    assert!(!task_is_lto("gcc -O2 -c a.c", Some("-O3 -fno-lto"), false));
    assert!(task_is_lto("gcc -O2 -c a.c", Some("-O3 -flto=8"), false));
}

/// Flags in two places count as if they stood in one.
#[test]
fn the_later_place_decides_about_lto() {
    for (a, b) in [("-flto", "-fno-lto"), ("-fno-lto", "-flto"), ("-flto", "-O2"), ("-O2", "")] {
        let both = format!("{a} {b}");
        for start in [false, true] {
            assert_eq!(
                scan_lto_flags(&both, start),
                scan_lto_flags(b, scan_lto_flags(a, start))
            );
        }
    }
}

#[test]
fn an_archive_command_names_gcc_ar() {
    let got = gcc_toolchain_tools_named(
        "/bin/sh -c \"rm -f tests/libtrees.a && \
         gcc-ar csrDT tests/libtrees.a tests/libtrees.a.p/trees.S.o\"",
    );
    assert_eq!(got, vec!["gcc-ar"]);
}

#[test]
fn an_ordinary_compile_names_none() {
    assert!(gcc_toolchain_tools_named("gcc -c a.c -o a.o").is_empty());
    assert!(gcc_toolchain_tools_named("ar rcs libx.a a.o").is_empty());
}

#[test]
fn a_path_ending_in_the_name_is_not_a_bare_name() {
    assert!(gcc_toolchain_tools_named("/nix/store/x/bin/gcc-ar rcs libx.a a.o").is_empty());
    assert!(gcc_toolchain_tools_named("gcc -o gcc-arch a.o").is_empty());
}

#[test]
fn the_family_is_three() {
    let got = gcc_toolchain_tools_named("sh -c \"gcc-ranlib x.a && gcc-nm x.a\"");
    assert_eq!(got, vec!["gcc-nm", "gcc-ranlib"]);
}

#[test]
fn every_shape_the_pick_steps_over() {
    let pick = |c: &str| command_program(c);
    let some = |s: &str| Some(s.to_string());
    assert_eq!(pick(": && gcc -c a.c && :"), some("gcc"));
    assert_eq!(pick("cd sub && python3 gen.py"), some("python3"));
    assert_eq!(pick("cd && ls"), some("ls"));
    assert_eq!(
        pick("\"/nix/store/x/bin/python3.14\" gen.py"),
        some("/nix/store/x/bin/python3.14")
    );
    assert_eq!(pick("PYTHONPATH=../src python3 -m rules.generator"), some("python3"));
    assert_eq!(pick("A=1 B=two prog"), some("prog"));
    assert_eq!(pick("env PYTHONPATH=../src python3 -m gen.emit gen.h"), some("python3"));
    assert_eq!(pick("env python3 x.py"), some("python3"));
    assert_eq!(pick("env"), None);
    assert_eq!(pick("-DX=1 prog"), some("-DX=1"));
    assert_eq!(pick("./a=b"), some("./a=b"));
    assert_eq!(pick("1A=x prog"), some("1A=x"));
    assert_eq!(pick("=x prog"), some("=x"));
    assert_eq!(pick("   "), None);
    assert_eq!(pick("cd sub"), None);
}

/// No flag that sets the random seed is left, and every other one is.
#[test]
fn the_random_seed_is_removed() {
    assert_eq!(
        remove_frandom_seed("-O2  -frandom-seed=29byqlv4fl -g -frandom-seed= -I."),
        "-O2 -g -I."
    );
    assert_eq!(remove_frandom_seed(""), "");
    let once = remove_frandom_seed("-a -frandom-seed=1 -b");
    assert_eq!(remove_frandom_seed(&once), once);
}

/// The seed is taken from the command's digest: sixteen lower-case hexadecimal digits.
#[test]
fn the_generated_seed_depends_on_the_command_alone() {
    let a = generate_frandom_seed("gcc -c a.c -o a.o");
    assert_eq!(a, generate_frandom_seed("gcc -c a.c -o a.o"));
    assert_ne!(a, generate_frandom_seed("gcc -c b.c -o b.o"));
    assert!(a.chars().all(|c| c.is_ascii_hexdigit() && !c.is_ascii_uppercase()));
    assert_eq!(generate_frandom_seed(""), SEED_OF_EMPTY);
}

const SEED_OF_EMPTY: &str = "e3b0c44298fc1c14";

#[test]
fn a_digest_is_spelled_in_hexadecimal() {
    let digest: Vec<u8> = vec![0xe3, 0xb0, 0xc4, 0x42, 0x98, 0xfc, 0x1c, 0x14, 0x9a];
    assert_eq!(seed_text(&digest), "e3b0c44298fc1c14");
}

#[test]
fn a_command_is_split_as_a_shell_does() {
    assert_eq!(
        command_words("gcc -DX='a b' \"c d\" e\\ f"),
        Some(vec!["gcc".to_string(), "-DX=a b".to_string(), "c d".to_string(), "e f".to_string()])
    );
    assert_eq!(command_words("gcc 'open"), None);
}

#[test]
fn an_assignment_begins_with_a_variable_name() {
    assert!(is_shell_assignment("A_1=x") && is_shell_assignment("_=") && is_shell_assignment("a=b=c"));
    assert!(!is_shell_assignment("1A=x") && !is_shell_assignment("=x") && !is_shell_assignment("a-b=c"));
    assert!(!is_shell_assignment("plain"));
}

#[test]
fn a_depfile_that_leads_out_behind_a_name_is_refused() {
    for (d, want) in [("sub/../../foo.o.d", None), ("sub/../foo.o.d", Some("sub/../foo.o.d"))] {
        let cmd = format!("cc -MD -MF {d} -c foo.c");
        assert_eq!(
            accepted_depfile_output_of(Some(d), Some("gcc"), Some(&cmd), None).as_deref(),
            want
        );
    }
}
