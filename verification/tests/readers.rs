//! Documents and scripts that refer to files, and the commands that read them.
use nix_ninja::invocation::{
    cmake_definitions, cmake_script_arg, generate_grd_input_files, python_module_candidates,
    python_module_invocation, rst_invocation, tablegen_invocation, xinclude_invocation,
};
use nix_ninja::readers::{
    cmake_script_referenced_paths, expand_cmake_vars, find_set_call, grd_reference_candidates,
    grd_references, is_cmake_ident_byte, line_is_comment,
    python_import_names, python_join_segments, python_syspath_dirs, reference_files,
    tablegen_include_names, xinclude_hrefs,
};
use nix_ninja::vars::Vars;

fn args(s: &str) -> Vec<String> {
    s.split_whitespace().map(String::from).collect()
}

fn split(s: &str) -> Vec<String> {
    shell_words::split(s).unwrap()
}

fn vars(v: &[(&str, &str)]) -> Vars {
    let mut out = Vars::new();
    for (k, x) in v {
        out.set(k, x);
    }
    out
}

#[test]
fn the_composed_template_path_is_recovered() {
    let a = args(
        "cmake -DBINARY_DIR=/build/source/build/src/tbb -DSOURCE_DIR=/build/source \
         -DVARS_TEMPLATE=linux/env/vars.sh.in -DVARS_NAME=vars.sh \
         -P /build/source/integration/cmake/generate_vars.cmake",
    );
    assert_eq!(
        cmake_script_arg(&a),
        Some("/build/source/integration/cmake/generate_vars.cmake".to_string())
    );
    let script = r#"
            # generate_vars.cmake
            set(INPUT_FILE "${SOURCE_DIR}/integration/${VARS_TEMPLATE}")
            set(OUTPUT_FILE "${BINARY_DIR}/${VARS_NAME}")
            configure_file(${INPUT_FILE} ${OUTPUT_FILE} @ONLY)
        "#;
    let got = cmake_script_referenced_paths(script, &cmake_definitions(&a));
    assert!(
        got.contains(&"/build/source/integration/linux/env/vars.sh.in".to_string()),
        "the template the sweep cannot reach: {got:?}"
    );
    assert!(!got.contains(&"/build/source/linux/env/vars.sh.in".to_string()));
}

#[test]
fn an_unknown_reference_yields_nothing_rather_than_a_partial_path() {
    let vars = vars(&[("A", "/x")]);
    assert_eq!(
        expand_cmake_vars("${A}/lit/${B}", &vars),
        None,
        "half of a path is not a path"
    );
    assert_eq!(expand_cmake_vars("${A}/lit", &vars), Some("/x/lit".to_string()));
    assert_eq!(expand_cmake_vars("plain/x", &vars), Some("plain/x".into()));
}

#[test]
fn definitions_are_read_in_every_spelling_cmake_accepts() {
    let d = cmake_definitions(&args("cmake -DA=1 -D B=2 -DC:PATH=/p -DD= -P s.cmake"));
    assert_eq!(d.get("A").as_deref(), Some("1"));
    assert_eq!(d.get("B").as_deref(), Some("2"));
    assert_eq!(d.get("C").as_deref(), Some("/p"));
    assert_eq!(d.get("D").as_deref(), Some(""));
}

#[test]
fn only_real_set_calls_are_read() {
    let script = r#"
            # set(NOTE "${A}/from-a-comment")
            unset(A)
            set(REAL "${A}/kept")
        "#;
    let defs = vars(&[("A", "/a")]);
    assert_eq!(
        cmake_script_referenced_paths(script, &defs),
        vec!["/a/kept".to_string()]
    );
}

#[test]
fn a_name_set_by_the_script_feeds_the_next_one() {
    let script = "set(ROOT \"${SRC}/integration\")\nset(F \"${ROOT}/env/vars.in\")\n";
    let defs = vars(&[("SRC", "/b/s")]);
    let got = cmake_script_referenced_paths(script, &defs);
    assert!(got.contains(&"/b/s/integration/env/vars.in".to_string()), "{got:?}");
}

#[test]
fn a_non_path_value_is_not_offered() {
    let got = cmake_script_referenced_paths("set(V \"1.2.3\")\n", &Vars::new());
    assert!(got.is_empty(), "{got:?}");
}

#[test]
fn finds_import_and_from_first_segment() {
    let names = python_import_names(&vec![
        "import os\nfrom markupsafe import Markup\nfrom .environment import E\nimport sys, re\n"
            .to_string(),
    ]);
    assert!(names.contains(&"markupsafe".to_string()));
    assert!(names.contains(&"os".to_string()));
    assert!(!names.contains(&"".to_string()));
    assert_eq!(names, vec!["markupsafe", "os", "sys"]);
}

#[test]
fn finds_indented_import_in_try_block() {
    let names = python_import_names(&vec![
        "import sys\ntry:\n  sys.path.insert(0, p)\n  import json_comment_eater\nfinally:\n  sys.path = s\n"
            .to_string(),
    ]);
    assert!(names.contains(&"json_comment_eater".to_string()));
}

#[test]
fn syspath_dirs_read_quoted_segments() {
    let dirs = python_syspath_dirs(
        "/r/tools/polymer",
        &vec![
            "import sys, os\nsys.path.append(os.path.join(_HERE_PATH, '..', '..', 'third_party', 'node'))\nimport node\n"
                .to_string(),
        ],
    );
    assert_eq!(dirs, vec!["/r/third_party/node"]);
}

#[test]
fn a_projects_paths_are_composed_of_quoted_segments() {
    assert_eq!(
        python_join_segments(&vec![
            "p = os.path.join(root, \"a\", 'b:c', 'd')\nq = join('x')\nr = os.path.join('a', 'd')\n"
                .to_string(),
        ]),
        vec!["a/d"]
    );
}

#[test]
fn generate_grd_cmdline_files_resolve_against_tool_root() {
    let cmd = "python3 /r/ui/webui/resources/tools/generate_grd.py \
         --out-grd gen/x/resources.grdp --grd-prefix webui_images \
         --root-gen-dir gen --input-files-base-dir ui/webui/resources/images \
         --input-files add.svg missing.svg --resource-path-prefix images";
    let got: Vec<String> = generate_grd_input_files(cmd)
        .into_iter()
        .filter(|p| p == "/r/ui/webui/resources/images/add.svg")
        .collect();
    assert_eq!(got, vec!["/r/ui/webui/resources/images/add.svg"]);
    assert!(generate_grd_input_files("python3 x/generate_grd.py --out-grd y").is_empty());
}

fn found(dir: &str, doc: &str, disk: &[&str]) -> Vec<String> {
    let mut out = Vec::new();
    for g in grd_references(&format!("{dir}/res.grd"), doc) {
        let direct = disk.contains(&g.direct.as_str());
        let scaled: Vec<bool> = g.scaled.iter().map(|p| disk.contains(&p.as_str())).collect();
        out.extend(reference_files(&g, direct, &scaled));
    }
    out
}

#[test]
fn a_context_absent_from_the_seed_is_harvested_from_the_document() {
    let doc = r#"<grit><outputs><output context="custom_150_percent"/></outputs>
               <structure type="chrome_scaled_image" file="flags_ui/favicon.png"/></grit>"#;
    let refs = found("/d", doc, &["/d/custom_150_percent/flags_ui/favicon.png"]);
    assert!(
        refs.contains(&"/d/custom_150_percent/flags_ui/favicon.png".to_string()),
        "a context named only by the document was not harvested: {refs:?}"
    );
}

#[test]
fn grd_scaled_image_resolves_through_context_dir() {
    let doc = r#"<grit><outputs><output context="default_100_percent"/></outputs>
               <file path="direct.xtb"/>
               <structure type="chrome_scaled_image" file="flags_ui/favicon.png"/>
               <structure type="chrome_scaled_image" file="flags_ui/absent.png"/></grit>"#;
    let disk = ["/d/direct.xtb", "/d/default_100_percent/flags_ui/favicon.png"];
    let refs = found("/d", doc, &disk);
    assert!(refs.contains(&"/d/direct.xtb".to_string()));
    assert!(refs.contains(&"/d/default_100_percent/flags_ui/favicon.png".to_string()));
    assert_eq!(refs.len(), 2, "absent file must not be invented: {refs:?}");
    assert_eq!(
        grd_reference_candidates("gen/d/res.grd", "<x file=\"../a.grdp\"/><y path=\"http://z\"/>"),
        vec!["gen/a.grdp"]
    );
}

#[test]
fn a_cd_prefixed_custom_command_is_still_recognised() {
    let args = split(
        "cd /build/llvm/lib/Target/X86 && /nix/store/x/bin/llvm-tblgen              -I/build/llvm-src/llvm/include /build/llvm-src/llvm/lib/Target/X86/X86.td              -o X86GenInstrInfo.inc -d X86GenInstrInfo.inc.d",
    );
    let got = tablegen_invocation(&args).expect("a cd-prefixed tblgen run must be recognised");
    assert_eq!(got.0, "/build/llvm-src/llvm/lib/Target/X86/X86.td");
    assert_eq!(got.1, vec!["/build/llvm-src/llvm/include".to_string()]);
}

#[test]
fn only_a_tblgen_command_is_read() {
    assert!(tablegen_invocation(&split("cp a.td b.td")).is_none());
    assert!(tablegen_invocation(&split("gcc -c x.c -o x.o")).is_none());
    let got = tablegen_invocation(&split(
        "/nix/store/x/bin/llvm-min-tblgen -I /b/llvm/include -Ifoo \
         /b/llvm/include/llvm/IR/Intrinsics.td -o out.inc -d out.inc.d",
    ))
    .expect("a tblgen run must be recognised");
    assert_eq!(got.0, "/b/llvm/include/llvm/IR/Intrinsics.td");
    assert_eq!(got.1, vec!["/b/llvm/include".to_string(), "foo".to_string()]);
}

#[test]
fn only_an_xinclude_command_is_read() {
    assert!(xinclude_invocation(&split("xsltproc --nonet style.xsl doc.xml")).is_none());
    assert!(xinclude_invocation(&split("cp a.xml b.xml")).is_none());
    let got = xinclude_invocation(&split("xsltproc --nonet --xinclude style.xsl doc.xml"))
        .expect("an xinclude run must be recognised");
    assert_eq!(got, vec!["doc.xml".to_string()]);
}

#[test]
fn a_fragment_a_url_and_an_absolute_path_are_refused() {
    let got = xinclude_hrefs(
        "<book>\n<xi:include href=\"#frag\"/>\n\
         <xi:include href=\"https://example.invalid/x.xml\"/>\n\
         <xi:include href=\"/etc/passwd\"/>\n\
         <xi:include href=\"real.xml\"/>\n</book>\n",
    );
    assert_eq!(got, vec!["real.xml".to_string()], "refusals leaked: {got:?}");
}

#[test]
fn a_plain_include_before_a_prefixed_one_is_kept() {
    let got = xinclude_hrefs(
        "<book>\n<include href=\"first.xml\"/>\n<xi:include href=\"second.xml\"/>\n</book>\n",
    );
    assert_eq!(got, vec!["first.xml".to_string(), "second.xml".to_string()]);
}

/// The other way round no spelling is lost either.
#[test]
fn a_prefixed_tag_before_a_plain_one_is_kept() {
    let got = xinclude_hrefs(
        "<book>\n<xi:include href=\"first.xml\"/>\n<include href=\"second.xml\"/>\n</book>\n",
    );
    assert_eq!(got, vec!["first.xml".to_string(), "second.xml".to_string()]);
}

#[test]
fn the_element_name_must_end_and_single_quotes_count() {
    assert!(xinclude_hrefs("<includes href=\"x.xml\"/>").is_empty());
    assert_eq!(xinclude_hrefs("<xi:include href='y.xml'/>"), vec!["y.xml".to_string()]);
}

#[test]
fn a_table_names_its_tables_line_by_line() {
    assert_eq!(
        tablegen_include_names("include \"a.td\"\n  include \t\"b.td\" // x\nincluded \"c.td\"\ninclude c\n"),
        vec!["a.td", "b.td"]
    );
}

#[test]
fn a_dash_m_module_is_read_with_its_search_roots() {
    let got = python_module_invocation(&split("env PYTHONPATH=../src python3 -m gen.emit gen.h"));
    assert_eq!(got, Some(("gen.emit".into(), vec!["../src".into(), ".".into()])));
    let got = python_module_invocation(&split(
        "PYTHONPATH=a:b /nix/store/x/bin/python3.13 -B -m pkg.mod",
    ));
    assert_eq!(
        got,
        Some(("pkg.mod".into(), vec!["a".into(), "b".into(), ".".into()]))
    );
    assert_eq!(
        python_module_invocation(&split("python3 -m gen.emit")),
        Some(("gen.emit".into(), vec![".".into()]))
    );
    assert_eq!(python_module_invocation(&split("python3 gen/emit.py -m x")), None);
    assert_eq!(python_module_invocation(&split("python3 -m -x")), None);
    assert_eq!(python_module_invocation(&split("perl -m gen.emit")), None);
}

#[test]
fn candidates_cover_module_and_package_under_every_root() {
    let roots = vec!["../src".to_string(), ".".to_string()];
    assert_eq!(
        python_module_candidates("gen.emit", &roots),
        vec![
            "../src/gen/emit.py",
            "../src/gen/emit/__init__.py",
            "gen/emit.py",
            "gen/emit/__init__.py"
        ]
    );
}

#[test]
fn a_docutils_writer_names_its_documents() {
    let args: Vec<String> = "python3 /src/buildlib/pandoc-prebuilt.py --build /b --rst /nix/store/x/bin/rst2man /b/man/ibsysstat.8.rst /b/man/ibsysstat.8"
        .split(' ')
        .map(String::from)
        .collect();
    assert_eq!(rst_invocation(&args), Some(vec!["/b/man/ibsysstat.8.rst".to_string()]));
    let plain: Vec<String> = "gcc -c a.c -o a.o".split(' ').map(String::from).collect();
    assert_eq!(rst_invocation(&plain), None);
}

#[test]
fn a_set_call_is_no_part_of_a_name_or_a_comment() {
    assert!(is_cmake_ident_byte(b'a') && is_cmake_ident_byte(b'-') && is_cmake_ident_byte(b'_'));
    assert!(!is_cmake_ident_byte(b'(') && !is_cmake_ident_byte(b' '));
    assert_eq!(find_set_call("unset(A)\nset (B c)"), Some(9));
    assert_eq!(find_set_call("# set(A b)\nsettle(x)"), None);
    assert!(line_is_comment("x\n  # y", 6));
    assert!(!line_is_comment("# x\ny", 5));
}

#[test]
fn a_set_call_behind_a_hash_is_a_comment() {
    assert_eq!(find_set_call("foo() # set(A b)"), None);
    assert_eq!(find_set_call("foo(\"#\") set(A b)"), Some(9));
    assert_eq!(find_set_call("# \u{e9}\nset(A b)"), Some(5), "offsets count bytes");
    assert_eq!(
        cmake_script_referenced_paths(
            "set(A /a/x) # set(B /b/x)\nset(C /c/x)",
            &vars(&[])
        ),
        vec!["/a/x".to_string(), "/c/x".to_string()]
    );
    assert!(line_is_comment("\u{e9} # y", 5));
    assert!(!line_is_comment("\u{e9} # y", 2));
}

#[test]
fn an_inclusion_names_no_uri() {
    for href in ["file:/a.xml", "urn:isbn:1", "http://x/a.xml", "#frag", "/a.xml", ""] {
        assert!(xinclude_hrefs(&format!("<xi:include href='{href}'/>")).is_empty(), "{href}");
    }
    assert_eq!(
        xinclude_hrefs("<include href='a/b:c.xml'/><xi:include href=\"1:x.xml\"/>"),
        vec!["a/b:c.xml".to_string(), "1:x.xml".to_string()]
    );
}

#[test]
fn composed_paths_are_relative() {
    let bodies = vec!["sys.path.insert(0, '/usr/lib')\nsys.path.append('lib')\n".to_string()];
    assert_eq!(python_syspath_dirs("a", &bodies), vec!["a/lib".to_string()]);
    let bodies = vec!["x = os.path.join('/usr', 'lib')\ny = os.path.join('b')\n".to_string()];
    assert_eq!(python_join_segments(&bodies), vec!["b".to_string()]);
}
