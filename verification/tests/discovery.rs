//! GAP discovery on small file systems.

use gap_sys::gap_config::{
    discover_gap_config, gap_root_candidates, is_libgap_file_name, is_plausible_path,
    parse_gap_root_line, parse_gap_root_stdout, parse_path_list, resolve_gap_root, CommandOutcome,
    DiscoveryEnv, GapConfig, Step,
};
use gap_sys::header::{wrapper_header, HeaderLayout};
use gap_sys::path::PosixPath;
use gap_sys::runtime_roots::{default_gap_root, gap_root_arg, inferred_runtime_roots};
use gap_sys::survey::{paths_to_discover, paths_to_start};
use gap_sys::tree::{Directory, Tree};
use std::collections::BTreeMap;

fn path(text: &str) -> PosixPath {
    PosixPath::from_text(text)
}

fn paths(texts: &[&str]) -> Vec<PosixPath> {
    texts.iter().map(|text| path(text)).collect()
}

/// A file system with the given files and the directories above them.
fn tree(files: &[PosixPath]) -> Tree {
    let mut directories: BTreeMap<Vec<u8>, Vec<Vec<u8>>> = BTreeMap::new();
    for file in files {
        let mut rest = file.bytes.clone();
        while let Some(cut) = rest.iter().rposition(|byte| *byte == b'/') {
            let above = if cut == 0 { b"/".to_vec() } else { rest[..cut].to_vec() };
            let entries = directories.entry(above.clone()).or_default();
            let name = rest[cut + 1..].to_vec();
            if !entries.contains(&name) {
                entries.push(name);
            }
            if cut == 0 {
                break;
            }
            rest = above;
        }
    }
    Tree {
        files: files.to_vec(),
        directories: directories
            .into_iter()
            .map(|(place, entries)| Directory {
                path: PosixPath { bytes: place },
                entries: Some(entries),
            })
            .collect(),
    }
}

fn temp_root(name: &str) -> PosixPath {
    path(&format!("/tmp/gap-sys-{name}-1700000000000000000"))
}

fn finished(env: &DiscoveryEnv, tree: &Tree) -> Result<GapConfig, String> {
    match discover_gap_config(env, &vec![], tree) {
        Step::Finished(result) => result,
        Step::Run(command) => panic!("{command:?} was asked for"),
    }
}

fn at(root: &PosixPath) -> DiscoveryEnv {
    DiscoveryEnv { root: Some(root.clone()), ..DiscoveryEnv::default() }
}

fn printed(text: &str) -> CommandOutcome {
    CommandOutcome::Exited {
        success: true,
        status: "exit status: 0".to_string(),
        stdout: text.as_bytes().to_vec(),
    }
}

#[test]
fn discovers_source_style_gap_root() {
    let root = temp_root("source-style");
    let tree = tree(&[
        root.join("lib/init.g"),
        root.join("src/libgap-api.h"),
        root.join("src/gap_all.h"),
        root.join("build/config.h"),
        root.join("libgap.dylib"),
    ]);

    let config = finished(&at(&root), &tree).unwrap();

    assert_eq!(config.root, root);
    assert_eq!(config.header_layout, HeaderLayout::Direct);
    assert!(config.include_dirs.contains(&config.root.join("src")));
    assert!(config.include_dirs.contains(&config.root.join("build")));
    assert_eq!(config.lib_dirs, vec![config.root.clone()]);
}

#[test]
fn discovers_installed_style_gap_root() {
    let base = temp_root("installed-style");
    let root = base.join("lib/gap");
    let tree = tree(&[
        root.join("lib/init.g"),
        base.join("include/gap/libgap-api.h"),
        base.join("include/gap/gap_all.h"),
        base.join("lib/libgap.so"),
    ]);

    let config = finished(&at(&root), &tree).unwrap();

    assert_eq!(config.root, root);
    assert_eq!(config.header_layout, HeaderLayout::IncludeSubdir);
    assert_eq!(config.include_dirs, vec![base.join("include")]);
    assert_eq!(config.lib_dirs, vec![base.join("lib")]);
}

#[test]
fn explicit_env_vars_override_inferred_paths() {
    let base = temp_root("explicit-env");
    let root = base.join("gaproot");
    let custom_headers = base.join("custom-include");
    let lib = base.join("custom-lib");
    let tree = tree(&[
        root.join("lib/init.g"),
        root.join("src/libgap-api.h"),
        root.join("src/gap_all.h"),
        root.join("libgap.dylib"),
        custom_headers.join("gap/libgap-api.h"),
        custom_headers.join("gap/gap_all.h"),
        lib.join("libgap.so"),
    ]);

    let config = finished(
        &DiscoveryEnv {
            root: Some(root),
            include_dirs: Some(custom_headers.bytes.clone()),
            lib_dirs: Some(lib.bytes.clone()),
            ..DiscoveryEnv::default()
        },
        &tree,
    )
    .unwrap();

    assert_eq!(config.header_layout, HeaderLayout::IncludeSubdir);
    assert_eq!(config.include_dirs, vec![custom_headers]);
    assert_eq!(config.lib_dirs, vec![lib]);
}

#[test]
fn reports_missing_headers() {
    let root = temp_root("missing-headers");
    let tree = tree(&[root.join("lib/init.g"), root.join("libgap.dylib")]);

    let err = finished(&at(&root), &tree).unwrap_err();

    assert!(err.contains("Could not find GAP headers"));
}

#[test]
fn reports_missing_libgap() {
    let root = temp_root("missing-libgap");
    let tree = tree(&[
        root.join("lib/init.g"),
        root.join("src/libgap-api.h"),
        root.join("src/gap_all.h"),
    ]);

    let err = finished(&at(&root), &tree).unwrap_err();

    assert!(err.contains("Could not find libgap"));
}

#[test]
fn discovers_multiarch_lib_dir() {
    let base = temp_root("multiarch-lib");
    let root = base.join("share/gap");
    let prefix = base.join("include");
    let lib = base.join("lib/x86_64-linux-gnu");
    let tree = tree(&[
        root.join("lib/init.g"),
        prefix.join("gap/libgap-api.h"),
        prefix.join("gap/gap_all.h"),
        lib.join("libgap.so"),
    ]);

    let config = finished(&at(&root), &tree).unwrap();

    assert_eq!(config.include_dirs, vec![prefix]);
    assert_eq!(config.lib_dirs, vec![lib]);
}

#[test]
fn resolves_homebrew_package_root_to_libexec_root() {
    let cellar = temp_root("homebrew-libexec");
    let printed_root = cellar.join("lib/gap");
    let actual_root = cellar.join("libexec");
    let tree = tree(&[
        printed_root.join("pkg/README"),
        actual_root.join("lib/init.g"),
        actual_root.join("src/libgap-api.h"),
        actual_root.join("src/gap_all.h"),
        actual_root.join("build/config.h"),
        actual_root.join("libgap.dylib"),
    ]);

    let config = finished(&at(&printed_root), &tree).unwrap();

    assert_eq!(config.root, actual_root);
    assert_eq!(config.header_layout, HeaderLayout::Direct);
}

#[test]
fn finds_libgap_in_sibling_lib_dir() {
    let cellar = temp_root("homebrew-sibling-lib");
    let root = cellar.join("libexec");
    let lib = cellar.join("lib");
    let tree = tree(&[
        root.join("lib/init.g"),
        root.join("src/libgap-api.h"),
        root.join("src/gap_all.h"),
        root.join("build/config.h"),
        lib.join("libgap.dylib"),
    ]);

    let config = finished(&at(&root), &tree).unwrap();

    assert_eq!(config.lib_dirs, vec![lib]);
}

#[test]
fn parses_plain_gap_root_output() {
    let root = temp_root("plain-gaproot-output");
    let tree = tree(&[root.join("lib/init.g")]);

    assert_eq!(
        parse_gap_root_stdout(root.display().as_bytes(), &tree),
        Some(root)
    );
}

#[test]
fn ignores_banner_output_when_parsing_gap_root() {
    let root = temp_root("banner-gaproot-output");
    let tree = tree(&[root.join("lib/init.g")]);
    let output = format!(
        "Unrecognised command line option: --print-gaproot\n\
         GAP 4.11.1 startup banner\n\
         gap> {}\n",
        root.display()
    );

    assert_eq!(parse_gap_root_stdout(output.as_bytes(), &tree), Some(root));
}

#[test]
fn reports_invalid_gap_root() {
    let root = temp_root("invalid-root");
    let tree = tree(&[
        root.join("src/libgap-api.h"),
        root.join("src/gap_all.h"),
        root.join("libgap.dylib"),
    ]);

    let err = finished(&at(&root), &tree).unwrap_err();

    assert!(err.contains("does not contain `lib/init.g`"));
}

#[test]
fn runtime_root_arg_includes_homebrew_split_package_root() {
    let base = temp_root("runtime-homebrew-split-runtime");
    let root = base.join("lib/gap");
    let package_root = base.join("share/gap");
    let tree = tree(&[
        root.join("lib/init.g"),
        package_root.join("pkg/gapdoc/PackageInfo.g"),
    ]);

    let arg = gap_root_arg(&root, &tree);

    assert!(arg.contains(&format!("{};", root.display())));
    assert!(arg.contains(&format!("{};", package_root.display())));
}

#[test]
fn runtime_root_arg_leaves_unsplit_root_alone() {
    let root = temp_root("runtime-unsplit-runtime");
    let tree = tree(&[
        root.join("lib/init.g"),
        root.join("pkg/gapdoc/PackageInfo.g"),
    ]);

    assert_eq!(gap_root_arg(&root, &tree), format!("{};", root.display()));
}

#[test]
fn candidates_come_in_order_and_once() {
    assert_eq!(
        gap_root_candidates(&path("/usr/lib/gap")),
        paths(&[
            "/usr/lib/gap",
            "/usr/lib/gap/libexec",
            "/usr/lib/gap/share/gap",
            "/usr/lib/gap/lib/gap",
            "/usr/lib/libexec",
            "/usr/lib/share/gap",
            "/usr/lib/lib/gap",
            "/usr/libexec",
            "/usr/share/gap",
            "/libexec",
            "/share/gap",
            "/lib/gap",
        ])
    );
    assert_eq!(
        gap_root_candidates(&path("/")),
        paths(&["/", "/libexec", "/share/gap", "/lib/gap"])
    );
}

#[test]
fn inferred_runtime_roots_stay_below_the_file_system_root() {
    assert_eq!(
        inferred_runtime_roots(&path("/usr/lib/gap")),
        paths(&[
            "/usr/lib/gap/lib/gap",
            "/usr/lib/gap/share/gap",
            "/usr/lib/lib/gap",
            "/usr/lib/share/gap",
            "/usr/lib/gap",
            "/usr/share/gap",
        ])
    );
    assert_eq!(inferred_runtime_roots(&path("/")), paths(&[]));
}

#[test]
fn a_root_is_not_listed_twice_under_two_spellings() {
    let files = paths(&["/usr/lib/gap/lib/init.g", "/usr/share/gap/pkg/README"]);
    assert_eq!(
        gap_root_arg(&path("/usr/lib//gap/"), &tree(&files)),
        "/usr/lib//gap/;/usr/share/gap;"
    );
}

#[test]
fn the_first_candidate_with_the_core_file_is_the_root() {
    let files = paths(&["/usr/share/gap/lib/init.g", "/lib/gap/lib/init.g"]);
    assert_eq!(
        resolve_gap_root(&path("/usr/lib/gap"), &tree(&files)),
        Ok(path("/usr/share/gap"))
    );
    assert_eq!(
        resolve_gap_root(&path("/"), &tree(&[])),
        Err(
            "GAP root `/` does not contain `lib/init.g`. Tried: /, /libexec, /share/gap, /lib/gap. \
             Set GAP_SYS_ROOT to a valid GAP root."
                .to_string()
        )
    );
}

#[test]
fn missing_parts_are_reported_with_what_was_tried() {
    let core = paths(&["/gap/lib/init.g"]);
    assert_eq!(
        finished(&at(&path("/gap")), &tree(&core)),
        Err("Could not find GAP headers. Tried include directories: <none>. \
             Set GAP_SYS_INCLUDE_DIRS or GAP_SYS_ROOT."
            .to_string())
    );
    let env = DiscoveryEnv {
        root: Some(path("/gap")),
        include_dirs: Some(b"/one:/two".to_vec()),
        lib_dirs: Some(b":/three::/four:".to_vec()),
        ..DiscoveryEnv::default()
    };
    assert_eq!(
        finished(&env, &tree(&core)),
        Err("Could not find GAP headers. Tried include directories: /one, /two. \
             Set GAP_SYS_INCLUDE_DIRS or GAP_SYS_ROOT."
            .to_string())
    );
    let headers = paths(&["/gap/lib/init.g", "/two/libgap-api.h", "/two/gap_all.h"]);
    assert_eq!(
        finished(&env, &tree(&headers)),
        Err("Could not find libgap. Tried library directories: /three, /four. \
             Set GAP_SYS_LIB_DIRS or GAP_SYS_ROOT."
            .to_string())
    );
}

#[test]
fn installed_headers_come_before_direct_ones() {
    let files = paths(&[
        "/gap/lib/init.g",
        "/one/libgap-api.h",
        "/one/gap_all.h",
        "/two/gap/libgap-api.h",
        "/two/gap/gap_all.h",
        "/three/libgap.so.9",
    ]);
    let config = finished(
        &DiscoveryEnv {
            root: Some(path("/gap")),
            include_dirs: Some(b"/one:/two".to_vec()),
            lib_dirs: Some(b"/four:/three".to_vec()),
            ..DiscoveryEnv::default()
        },
        &tree(&files),
    )
    .unwrap();
    assert_eq!(config.header_layout, HeaderLayout::IncludeSubdir);
    assert_eq!(config.include_dirs, paths(&["/one", "/two"]));
    assert_eq!(config.lib_dirs, paths(&["/four", "/three"]));
}

#[test]
fn a_directory_that_cannot_be_read_holds_no_libgap() {
    let mut tree = tree(&paths(&[
        "/gap/lib/init.g",
        "/gap/src/libgap-api.h",
        "/gap/src/gap_all.h",
        "/gap/libgap.so",
    ]));
    assert!(finished(&at(&path("/gap")), &tree).is_ok());
    for directory in &mut tree.directories {
        directory.entries = None;
    }
    assert!(finished(&at(&path("/gap")), &tree).is_err());
}

#[test]
fn a_name_that_is_no_text_is_no_libgap() {
    let mut tree = tree(&paths(&[
        "/gap/lib/init.g",
        "/gap/src/libgap-api.h",
        "/gap/src/gap_all.h",
    ]));
    for directory in &mut tree.directories {
        if directory.path == path("/gap") {
            directory.entries = Some(vec![b"libgap.so.\xff".to_vec()]);
        }
    }
    assert!(finished(&at(&path("/gap")), &tree).is_err());
    for directory in &mut tree.directories {
        if directory.path == path("/gap") {
            directory.entries = Some(vec![b"libgap.so.\xff".to_vec(), b"libgap.a".to_vec()]);
        }
    }
    assert!(finished(&at(&path("/gap")), &tree).is_ok());
}

#[test]
fn commands_are_asked_for_in_turn() {
    let files = paths(&[
        "/gap/lib/init.g",
        "/gap/src/libgap-api.h",
        "/gap/src/gap_all.h",
        "/gap/libgap.so",
    ]);
    let tree = tree(&files);
    let env = DiscoveryEnv { root: Some(path("")), ..DiscoveryEnv::default() };
    match discover_gap_config(&env, &vec![], &tree) {
        Step::Run(command) => {
            assert_eq!(command.program, path("gap"));
            assert_eq!(command.args, ["--print-gaproot"]);
        }
        Step::Finished(result) => panic!("{result:?} came too early"),
    }
    let banner = printed("GAP 4.11.1\ngap> \n");
    match discover_gap_config(&env, &vec![banner.clone()], &tree) {
        Step::Run(command) => {
            assert_eq!(command.program, path("gap"));
            assert_eq!(command.args[..2], ["-q", "-c"]);
            assert!(command.args[2].starts_with("for p in GAPInfo.RootPaths do"));
            assert!(command.args[2].ends_with("Print(p,\"\\n\"); fi; od; QUIT;"));
        }
        Step::Finished(result) => panic!("{result:?} came too early"),
    }
    match discover_gap_config(&env, &vec![banner, printed("/gap\n")], &tree) {
        Step::Finished(Ok(config)) => assert_eq!(config.root, path("/gap")),
        other => panic!("{other:?} instead of a configuration"),
    }
    match discover_gap_config(&env, &vec![printed("/gap\n")], &tree) {
        Step::Finished(Ok(config)) => assert_eq!(config.root, path("/gap")),
        other => panic!("{other:?} instead of a configuration"),
    }
}

#[test]
fn a_root_in_the_settings_runs_no_command() {
    let files = paths(&[
        "/gap/lib/init.g",
        "/gap/src/libgap-api.h",
        "/gap/src/gap_all.h",
        "/gap/libgap.so",
    ]);
    let tree = tree(&files);
    let missing = CommandOutcome::Failed { error: "no such file".to_string() };
    for outcomes in [vec![], vec![missing.clone()], vec![printed("/other\n"), missing]] {
        match discover_gap_config(&at(&path("/gap")), &outcomes, &tree) {
            Step::Finished(Ok(config)) => assert_eq!(config.root, path("/gap")),
            other => panic!("{other:?} instead of a configuration"),
        }
    }
}

#[test]
fn outcomes_after_the_end_do_not_count() {
    let missing = CommandOutcome::Failed { error: "no such file".to_string() };
    let env = DiscoveryEnv::default();
    let ended = error_after(&env, &[missing.clone()]);
    assert_eq!(error_after(&env, &[missing, printed("/gap\n"), printed("/gap\n")]), ended);
}

fn error_after(env: &DiscoveryEnv, outcomes: &[CommandOutcome]) -> String {
    match discover_gap_config(env, &outcomes.to_vec(), &tree(&[])) {
        Step::Finished(Err(text)) => text,
        other => panic!("{other:?} instead of an error"),
    }
}

#[test]
fn commands_that_fail_are_reported() {
    let default = DiscoveryEnv::default();
    let explicit = DiscoveryEnv { gap_bin: Some(path("/bin/gap4")), ..DiscoveryEnv::default() };
    let missing = CommandOutcome::Failed { error: "no such file".to_string() };
    let failed = CommandOutcome::Exited {
        success: false,
        status: "exit status: 1".to_string(),
        stdout: b"/gap\n".to_vec(),
    };
    assert_eq!(
        error_after(&default, &[missing.clone()]),
        "Could not run `gap --print-gaproot`. Set GAP_SYS_ROOT or GAP_SYS_GAP_BIN."
    );
    assert_eq!(
        error_after(&explicit, &[missing.clone()]),
        "Could not run `/bin/gap4`: no such file. Set GAP_SYS_ROOT."
    );
    assert_eq!(
        error_after(&default, &[failed.clone(), missing.clone()]),
        "Could not run GAP root discovery commands. Set GAP_SYS_ROOT or GAP_SYS_GAP_BIN."
    );
    assert_eq!(
        error_after(&explicit, &[failed.clone(), missing]),
        "Could not run `/bin/gap4`: no such file. Set GAP_SYS_ROOT."
    );
    assert_eq!(
        error_after(&default, &[failed.clone(), failed.clone()]),
        "Could not discover GAP root with `gap --print-gaproot` or a GAPInfo.RootPaths query. \
         Set GAP_SYS_ROOT."
    );
    assert_eq!(
        error_after(&explicit, &[failed.clone(), failed.clone()]),
        "`/bin/gap4 -q -c <gap-root-query>` failed with status exit status: 1. Set GAP_SYS_ROOT."
    );
    assert_eq!(
        error_after(&default, &[failed.clone(), printed("nothing\n")]),
        "`gap -q -c <gap-root-query>` did not print a usable GAP root. Set GAP_SYS_ROOT."
    );
    let empty = DiscoveryEnv { gap_bin: Some(path("")), ..DiscoveryEnv::default() };
    assert_eq!(
        error_after(&empty, &[failed, printed("nothing\n")]),
        "`gap -q -c <gap-root-query>` did not print a usable GAP root. Set GAP_SYS_ROOT."
    );
}

#[test]
fn a_core_root_is_preferred_to_a_directory() {
    let tree = tree(&paths(&["/one/README", "/two/README", "/three/lib/init.g"]));
    assert_eq!(
        parse_gap_root_stdout(b"/one\n/two\n/three\n", &tree),
        Some(path("/three"))
    );
    assert_eq!(parse_gap_root_stdout(b"/none\r\n/two\r\n/one\r\n", &tree), Some(path("/two")));
    assert_eq!(parse_gap_root_stdout(b"/none\n", &tree), None);
    assert_eq!(parse_gap_root_stdout(b"\xff/one\n/two\n", &tree), Some(path("/two")));
}

#[test]
fn paths_are_found_on_lines() {
    let found = |line: &str| parse_gap_root_line(line).map(|path| path.display());
    assert_eq!(found("  /usr/lib/gap  "), Some("/usr/lib/gap".to_string()));
    assert_eq!(found("gap> /usr/lib/gap"), Some("/usr/lib/gap".to_string()));
    assert_eq!(found("gap>gap> /usr"), None);
    assert_eq!(found("gap>"), None);
    assert_eq!(found(""), None);
    assert_eq!(found("\u{3000}./gap\u{85}"), Some("./gap".to_string()));
    assert_eq!(found("usr/lib"), None);
    assert!(is_plausible_path("\\\\server"));
    assert!(is_plausible_path("../gap"));
    assert!(is_plausible_path("C:\\gap"));
    assert!(!is_plausible_path("\u{e9}:gap"));
    assert!(!is_plausible_path("C"));
    assert!(!is_plausible_path(".gap"));
}

#[test]
fn libgap_is_known_by_its_names() {
    for name in [
        "libgap.so",
        "libgap.dylib",
        "libgap.a",
        "libgap.dll",
        "libgap.dll.a",
        "gap.dll",
        "libgap.so.9",
        "libgap.so.",
        "libgap.9.dylib",
        "libgap..dylib",
    ] {
        assert!(is_libgap_file_name(name), "{name}");
    }
    for name in [
        "",
        "libgap",
        "libgap.so9",
        "libgap.la",
        "mylibgap.so",
        "libgapdylib",
        "libgap.dylib.bak",
        "gap.dll.a",
    ] {
        assert!(!is_libgap_file_name(name), "{name}");
    }
}

#[test]
fn path_lists_are_split_at_colons() {
    assert_eq!(parse_path_list(b"/one:/two", b':'), paths(&["/one", "/two"]));
    assert_eq!(parse_path_list(b":/one::two:", b':'), paths(&["/one", "two"]));
    assert_eq!(parse_path_list(b"", b':'), paths(&[]));
    assert_eq!(parse_path_list(b":", b':'), paths(&[]));
    assert_eq!(parse_path_list(b"/one:/two", b';'), paths(&["/one:/two"]));
    assert_eq!(parse_path_list(b"one;;two", b';'), paths(&["one", "two"]));
    assert_eq!(
        parse_path_list(b"\"/a;b\";c\"d;e\"f;\"\";/g", b';'),
        paths(&["/a;b", "cd;ef", "/g"])
    );
    assert_eq!(parse_path_list(b"/a;\"b;c", b';'), paths(&["/a", "b;c"]));
    assert_eq!(parse_path_list(b"\"/a:b\"", b':'), paths(&["\"/a", "b\""]));
    let dirs = paths(&["/a b", "c", "/d/e"]);
    let joined: Vec<u8> = dirs
        .iter()
        .map(|dir| dir.bytes.clone())
        .collect::<Vec<_>>()
        .join(&b':');
    assert_eq!(parse_path_list(&joined, b':'), dirs);
}

#[test]
fn the_environment_names_the_runtime_root() {
    assert_eq!(default_gap_root(&None, &path("/built")), path("/built"));
    assert_eq!(default_gap_root(&Some(path("/env")), &path("/built")), path("/env"));
}

#[test]
fn headers_differ_in_two_lines() {
    let subdir = wrapper_header(&HeaderLayout::IncludeSubdir);
    let direct = wrapper_header(&HeaderLayout::Direct);
    let differing: Vec<(&str, &str)> = subdir
        .lines()
        .zip(direct.lines())
        .filter(|(one, other)| one != other)
        .collect();
    assert_eq!(
        differing,
        [
            ("#include <gap/libgap-api.h>", "#include \"libgap-api.h\""),
            ("#include <gap/gap_all.h>", "#include \"gap_all.h\""),
        ]
    );
    assert_eq!(subdir.lines().count(), direct.lines().count());
    assert!(subdir.contains("static inline Obj SYSGAP_CallFunc2Args(Obj func, Obj a1, Obj a2) {\n"));
    assert!(subdir.contains("static TypOutputFile SYSGAP_OUTPUT_STREAM = { 0 };\n"));
    assert!(direct.ends_with("    MarkBag(obj);\n#endif\n}\n"));
    let lines = "#include <gap/libgap-api.h>\n#include <gap/gap_all.h>";
    assert_eq!(subdir.matches(lines).count(), 1);
    assert_eq!(
        subdir.replace(lines, "#include \"libgap-api.h\"\n#include \"gap_all.h\""),
        direct
    );
    assert!(subdir.find("#define EXPORT_INLINE static inline") < subdir.find(lines));
}

/// What `tree` says of `list`, and of the entries of the directories there.
fn seen(tree: &Tree, list: &[PosixPath]) -> Tree {
    let mut wanted = list.to_vec();
    for place in list {
        if let Some(names) = tree.read_dir(place) {
            for name in names {
                wanted.push(place.join_bytes(name));
            }
        }
    }
    Tree {
        files: wanted.iter().filter(|place| tree.is_file(place)).cloned().collect(),
        directories: wanted
            .iter()
            .filter(|place| tree.is_dir(place))
            .map(|place| Directory {
                path: place.clone(),
                entries: tree.read_dir(place).cloned(),
            })
            .collect(),
    }
}

#[test]
fn looking_at_the_listed_paths_is_enough() {
    let cellar = temp_root("survey");
    let world = tree(&[
        cellar.join("lib/gap/pkg/README"),
        cellar.join("libexec/lib/init.g"),
        cellar.join("libexec/src/libgap-api.h"),
        cellar.join("libexec/src/gap_all.h"),
        cellar.join("libexec/build/config.h"),
        cellar.join("lib/x86_64-linux-gnu/libgap.so"),
        cellar.join("share/doc/gap/README"),
    ]);
    let settings = [
        DiscoveryEnv {
            include_dirs: Some(b"/none;/none/either".to_vec()),
            list_separator: b';',
            ..at(&cellar.join("libexec"))
        },
        at(&cellar.join("lib/gap")),
        DiscoveryEnv {
            include_dirs: Some(cellar.join("libexec/src").bytes),
            lib_dirs: Some(cellar.join("lib/x86_64-linux-gnu").bytes),
            ..at(&cellar.join("lib/gap"))
        },
    ];
    for env in settings {
        let part = seen(&world, &paths_to_discover(&env, &vec![]));
        assert!(!part.is_file(&cellar.join("share/doc/gap/README")));
        assert_eq!(finished(&env, &part), finished(&env, &world));
        assert_eq!(finished(&env, &part).is_ok(), env.list_separator == b':');
    }
    let outcomes = vec![printed(&format!("{}\n", cellar.join("lib/gap").display()))];
    let env = DiscoveryEnv::default();
    let part = seen(&world, &paths_to_discover(&env, &outcomes));
    match discover_gap_config(&env, &outcomes, &part) {
        Step::Finished(Ok(config)) => assert_eq!(config.root, cellar.join("libexec")),
        other => panic!("{other:?} instead of a configuration"),
    }
    let root = cellar.join("libexec");
    let part = seen(&world, &paths_to_start(&root));
    assert_eq!(gap_root_arg(&root, &part), gap_root_arg(&root, &world));
}
