//! What GAP discovery decides, stated over paths and over what was seen of the file system.

use crate::header::HeaderLayout;
use crate::path::{ancestors_of, below, joined, parent_of, paths_text, with_path};
use crate::text::{split_lines, text_of, trimmed};
use crate::tree::TreeView;
use vstd::prelude::*;
use vstd::utf8::{decode_utf8, encode_utf8, valid_utf8};

verus! {

// --- Roots ---
/// The core initialization file of a GAP root.
pub open spec fn init_file(root: Seq<u8>) -> Seq<u8> {
    below(below(root, "lib"), "init.g")
}

/// Whether `root` holds the core initialization file.
pub open spec fn is_core_root(tree: TreeView, root: Seq<u8>) -> bool {
    tree.is_file(init_file(root))
}

/// `list` with the places near each of `bases` where a package manager may put GAP.
pub open spec fn with_nearby(list: Seq<Seq<u8>>, bases: Seq<Seq<u8>>) -> Seq<Seq<u8>>
    decreases bases.len(),
{
    if bases.len() == 0 {
        list
    } else {
        let before = with_nearby(list, bases.drop_last());
        let base = bases.last();
        with_path(
            with_path(
                with_path(before, below(base, "libexec")),
                below(below(base, "share"), "gap"),
            ),
            below(below(base, "lib"), "gap"),
        )
    }
}

/// The candidate roots near `root`, which comes first.
pub open spec fn candidates_of(root: Seq<u8>) -> Seq<Seq<u8>> {
    with_nearby(with_path(seq![], root), ancestors_of(root, 4))
}

/// The first of the candidates that is a core root.
pub open spec fn first_core_root(tree: TreeView, candidates: Seq<Seq<u8>>) -> Option<Seq<u8>>
    decreases candidates.len(),
{
    if candidates.len() == 0 {
        None
    } else if is_core_root(tree, candidates[0]) {
        Some(candidates[0])
    } else {
        first_core_root(tree, candidates.skip(1))
    }
}

/// What is said of a root without a core root near it.
pub open spec fn no_core_root_text(root: Seq<u8>) -> Seq<char> {
    "GAP root `"@ + text_of(root) + "` does not contain `lib/init.g`. Tried: "@ + paths_text(
        candidates_of(root),
    ) + ". Set GAP_SYS_ROOT to a valid GAP root."@
}

/// The core root that `root` stands for, or what is said if there is none.
pub open spec fn resolved_root(tree: TreeView, root: Seq<u8>) -> Result<Seq<u8>, Seq<char>> {
    match first_core_root(tree, candidates_of(root)) {
        Some(found) => Ok(found),
        None => Err(no_core_root_text(root)),
    }
}

// --- Command output ---
/// Whether a text looks like a path.
pub open spec fn looks_like_path(s: Seq<char>) -> bool {
    ||| "/"@.is_prefix_of(s)
    ||| "\\"@.is_prefix_of(s)
    ||| "./"@.is_prefix_of(s)
    ||| "../"@.is_prefix_of(s)
    ||| encode_utf8(s).len() > 1 && encode_utf8(s)[1] == 0x3a
}

/// A line without its white space and its GAP prompt.
pub open spec fn without_prompt(line: Seq<char>) -> Seq<char> {
    let s = trimmed(line);
    if "gap>"@.is_prefix_of(s) {
        trimmed(s.skip("gap>"@.len() as int))
    } else {
        trimmed(s)
    }
}

/// The path on a line, if there is one.
pub open spec fn path_on_line(line: Seq<char>) -> Option<Seq<u8>> {
    let s = without_prompt(line);
    if s.len() > 0 && looks_like_path(s) {
        Some(encode_utf8(s))
    } else {
        None
    }
}

/// The path on the first line that gives a core root.
pub open spec fn first_core_line(tree: TreeView, lines: Seq<Seq<char>>) -> Option<Seq<u8>>
    decreases lines.len(),
{
    if lines.len() == 0 {
        None
    } else {
        match path_on_line(lines[0]) {
            Some(p) if is_core_root(tree, p) => Some(p),
            _ => first_core_line(tree, lines.skip(1)),
        }
    }
}

/// The path on the first line that gives a directory.
pub open spec fn first_directory_line(tree: TreeView, lines: Seq<Seq<char>>) -> Option<Seq<u8>>
    decreases lines.len(),
{
    if lines.len() == 0 {
        None
    } else {
        match path_on_line(lines[0]) {
            Some(p) if tree.is_dir(p) => Some(p),
            _ => first_directory_line(tree, lines.skip(1)),
        }
    }
}

/// The best root in a command's output: a core root before a mere directory.
pub open spec fn root_in_output(tree: TreeView, stdout: Seq<u8>) -> Option<Seq<u8>> {
    let lines = split_lines(text_of(stdout));
    match first_core_line(tree, lines) {
        Some(p) => Some(p),
        None => first_directory_line(tree, lines),
    }
}

// --- Header directories ---
/// Whether `dir` holds GAP's headers.
pub open spec fn has_headers(tree: TreeView, dir: Seq<u8>) -> bool {
    tree.is_file(below(dir, "libgap-api.h")) && tree.is_file(below(dir, "gap_all.h"))
}

/// `list` with `dir`, if GAP's headers are installed below it.
pub open spec fn with_header_prefix(tree: TreeView, list: Seq<Seq<u8>>, dir: Seq<u8>) -> Seq<
    Seq<u8>,
> {
    if has_headers(tree, below(dir, "gap")) {
        with_path(list, dir)
    } else {
        list
    }
}

/// The header directories of a source tree at `root`.
pub open spec fn source_header_dirs(tree: TreeView, root: Seq<u8>) -> Seq<Seq<u8>> {
    let source = below(root, "src");
    let build = below(root, "build");
    if !has_headers(tree, source) {
        seq![]
    } else if tree.is_dir(build) {
        with_path(with_path(seq![], source), build)
    } else {
        with_path(seq![], source)
    }
}

/// The header directories that go with `root`: of a source tree, then of an
/// installation at the root, its parent and the parent above.
pub open spec fn header_dirs_of(tree: TreeView, root: Seq<u8>) -> Seq<Seq<u8>> {
    let at_root = with_header_prefix(
        tree,
        source_header_dirs(tree, root),
        below(root, "include"),
    );
    match parent_of(root) {
        None => at_root,
        Some(parent) => {
            let at_parent = with_header_prefix(tree, at_root, below(parent, "include"));
            match parent_of(parent) {
                None => at_parent,
                Some(prefix) => with_header_prefix(tree, at_parent, below(prefix, "include")),
            }
        },
    }
}

/// The layout that header directories have: installed headers before direct ones.
pub open spec fn layout_of(tree: TreeView, dirs: Seq<Seq<u8>>) -> Option<HeaderLayout> {
    if exists|i: int| 0 <= i < dirs.len() && has_headers(tree, below(#[trigger] dirs[i], "gap")) {
        Some(HeaderLayout::IncludeSubdir)
    } else if exists|i: int| 0 <= i < dirs.len() && has_headers(tree, #[trigger] dirs[i]) {
        Some(HeaderLayout::Direct)
    } else {
        None
    }
}

// --- Library directories ---
/// Whether a file name is that of libgap: shared, static, versioned or Windows.
pub open spec fn is_libgap_name(name: Seq<char>) -> bool {
    ||| name == "libgap.so"@
    ||| name == "libgap.dylib"@
    ||| name == "libgap.a"@
    ||| name == "libgap.dll"@
    ||| name == "libgap.dll.a"@
    ||| name == "gap.dll"@
    ||| "libgap.so."@.is_prefix_of(name)
    ||| "libgap."@.is_prefix_of(name) && ".dylib"@.is_suffix_of(name)
}

/// Whether a directory entry is libgap.
pub open spec fn is_libgap_entry(entry: Seq<u8>) -> bool {
    valid_utf8(entry) && is_libgap_name(decode_utf8(entry))
}

/// Whether one of the directory entries is libgap.
pub open spec fn has_libgap_entry(names: Seq<Seq<u8>>) -> bool {
    exists|i: int| 0 <= i < names.len() && is_libgap_entry(#[trigger] names[i])
}

/// Whether `dir` can be read and holds libgap.
pub open spec fn holds_libgap(tree: TreeView, dir: Seq<u8>) -> bool {
    match tree.listing(dir) {
        Some(names) => has_libgap_entry(names),
        None => false,
    }
}

/// Whether one of the directories holds libgap.
pub open spec fn some_hold_libgap(tree: TreeView, dirs: Seq<Seq<u8>>) -> bool {
    exists|i: int| 0 <= i < dirs.len() && holds_libgap(tree, #[trigger] dirs[i])
}

/// `list` with `dir`, if that holds libgap.
pub open spec fn with_library_dir(tree: TreeView, list: Seq<Seq<u8>>, dir: Seq<u8>) -> Seq<
    Seq<u8>,
> {
    if holds_libgap(tree, dir) {
        with_path(list, dir)
    } else {
        list
    }
}

/// `list` with those of the named children of `dir` that are directories holding libgap.
pub open spec fn with_library_children(
    tree: TreeView,
    list: Seq<Seq<u8>>,
    dir: Seq<u8>,
    names: Seq<Seq<u8>>,
) -> Seq<Seq<u8>>
    decreases names.len(),
{
    if names.len() == 0 {
        list
    } else {
        let before = with_library_children(tree, list, dir, names.drop_last());
        let child = joined(dir, names.last());
        if tree.is_dir(child) {
            with_library_dir(tree, before, child)
        } else {
            before
        }
    }
}

/// `list` with `dir` and its children, as far as they hold libgap.
pub open spec fn with_library_dirs_under(
    tree: TreeView,
    list: Seq<Seq<u8>>,
    dir: Seq<u8>,
) -> Seq<Seq<u8>> {
    let at_dir = with_library_dir(tree, list, dir);
    match tree.listing(dir) {
        Some(names) => with_library_children(tree, at_dir, dir, names),
        None => at_dir,
    }
}

/// The library directories that go with `root`: the root and its `lib`, its parent and
/// that one's `lib`, and `lib` and `lib64` above, unless that is the file system's root.
pub open spec fn library_dirs_of(tree: TreeView, root: Seq<u8>) -> Seq<Seq<u8>> {
    let at_root = with_library_dirs_under(
        tree,
        with_library_dir(tree, seq![], root),
        below(root, "lib"),
    );
    match parent_of(root) {
        None => at_root,
        Some(parent) => {
            let at_parent = with_library_dirs_under(
                tree,
                with_library_dir(tree, at_root, parent),
                below(parent, "lib"),
            );
            match parent_of(parent) {
                Some(prefix) if parent_of(prefix) is Some => with_library_dirs_under(
                    tree,
                    with_library_dirs_under(tree, at_parent, below(prefix, "lib")),
                    below(prefix, "lib64"),
                ),
                _ => at_parent,
            }
        },
    }
}

// --- Discovery ---
/// The discovery settings, as contracts speak of them.
pub struct EnvView {
    pub root: Option<Seq<u8>>,
    pub gap_bin: Option<Seq<u8>>,
    pub include_dirs: Option<Seq<u8>>,
    pub lib_dirs: Option<Seq<u8>>,
    pub list_separator: u8,
}

/// A finished configuration, as contracts speak of it.
pub struct ConfigView {
    pub root: Seq<u8>,
    pub include_dirs: Seq<Seq<u8>>,
    pub lib_dirs: Seq<Seq<u8>>,
    pub header_layout: HeaderLayout,
}

/// A command to run, as contracts speak of it.
pub struct CommandView {
    pub program: Seq<u8>,
    pub args: Seq<Seq<char>>,
}

/// How a command ended, as contracts speak of it.
pub enum OutcomeView {
    Exited { success: bool, status: Seq<char>, stdout: Seq<u8> },
    Failed { error: Seq<char> },
}

/// What comes next: a command, or the result.
pub enum StepView<T> {
    Run(CommandView),
    Finished(Result<T, Seq<char>>),
}

/// The byte `:`, which stands between the entries of a path list on POSIX systems.
pub const COLON: u8 = 0x3a;

/// The byte `;`, which stands between the entries of a path list on Windows.
pub const SEMICOLON: u8 = 0x3b;

/// The byte `"`, which encloses entries of a path list on Windows.
pub const QUOTE: u8 = 0x22;

/// An entry of a path list, unless it is empty.
pub open spec fn path_entry(entry: Seq<u8>) -> Seq<Seq<u8>> {
    if entry.len() == 0 {
        seq![]
    } else {
        seq![entry]
    }
}

/// Whether a byte is a quote in a path list: where `;` stands between the entries, a
/// separator between two quotes belongs to the entry.
pub open spec fn is_quote(byte: u8, separator: u8) -> bool {
    separator == SEMICOLON && byte == QUOTE
}

/// How long the first entry of a path list is: up to the first separator that is not
/// quoted. `quoted` tells whether the list begins between two quotes.
pub open spec fn entry_len(list: Seq<u8>, separator: u8, quoted: bool) -> nat
    decreases list.len(),
{
    if list.len() == 0 || (list[0] == separator && !quoted) {
        0
    } else {
        1 + entry_len(list.skip(1), separator, quoted != is_quote(list[0], separator))
    }
}

/// An entry of a path list without its quotes.
pub open spec fn unquoted(entry: Seq<u8>, separator: u8) -> Seq<u8> {
    entry.filter(|byte: u8| !is_quote(byte, separator))
}

/// The entries of a path list that are not empty, when `separator` stands between them.
pub open spec fn path_entries(list: Seq<u8>, separator: u8) -> Seq<Seq<u8>>
    decreases list.len(),
{
    let cut = entry_len(list, separator, false) as int;
    if cut < list.len() {
        path_entry(unquoted(list.take(cut), separator)) + path_entries(
            list.skip(cut + 1),
            separator,
        )
    } else {
        path_entry(unquoted(list, separator))
    }
}

/// A setting that is there and not empty.
pub open spec fn nonempty(setting: Option<Seq<u8>>) -> Option<Seq<u8>> {
    match setting {
        Some(p) if p.len() > 0 => Some(p),
        _ => None,
    }
}

/// The GAP executable to ask.
pub open spec fn gap_program(env: EnvView) -> Seq<u8> {
    match nonempty(env.gap_bin) {
        Some(bin) => bin,
        None => encode_utf8("gap"@),
    }
}

/// What is said of an executable that was set and cannot be run.
pub open spec fn cannot_run_text(bin: Seq<u8>, error: Seq<char>) -> Seq<char> {
    "Could not run `"@ + text_of(bin) + "`: "@ + error + ". Set GAP_SYS_ROOT."@
}

/// What is said of an executable that printed no root.
pub open spec fn no_root_printed_text(bin: Seq<u8>) -> Seq<char> {
    "`"@ + text_of(bin)
        + " -q -c <gap-root-query>` did not print a usable GAP root. Set GAP_SYS_ROOT."@
}

/// What is said of an executable that was set and failed.
pub open spec fn query_failed_text(bin: Seq<u8>, status: Seq<char>) -> Seq<char> {
    "`"@ + text_of(bin) + " -q -c <gap-root-query>` failed with status "@ + status
        + ". Set GAP_SYS_ROOT."@
}

/// GAP code that prints the roots holding the core `lib/init.g` file and exits.
pub const GAP_ROOT_QUERY: &'static str = "for p in GAPInfo.RootPaths do if IsExistingFile(Concatenation(p,\"lib/init.g\")) then Print(p,\"\\n\"); fi; od; QUIT;";

/// The end of the root query after its second command.
pub open spec fn second_answer(env: EnvView, outcome: OutcomeView, tree: TreeView) -> Result<
    Seq<u8>,
    Seq<char>,
> {
    let bin = gap_program(env);
    match outcome {
        OutcomeView::Exited { success, status, stdout } => if success {
            match root_in_output(tree, stdout) {
                Some(root) => Ok(root),
                None => Err(no_root_printed_text(bin)),
            }
        } else if env.gap_bin is Some {
            Err(query_failed_text(bin, status))
        } else {
            Err(
                "Could not discover GAP root with `gap --print-gaproot` or a GAPInfo.RootPaths query. Set GAP_SYS_ROOT."@,
            )
        },
        OutcomeView::Failed { error } => if env.gap_bin is Some {
            Err(cannot_run_text(bin, error))
        } else {
            Err(
                "Could not run GAP root discovery commands. Set GAP_SYS_ROOT or GAP_SYS_GAP_BIN."@,
            )
        },
    }
}

/// The end of the root query after its first command, if that settles it.
pub open spec fn first_answer(env: EnvView, outcome: OutcomeView, tree: TreeView) -> Option<
    Result<Seq<u8>, Seq<char>>,
> {
    match outcome {
        OutcomeView::Exited { success, status, stdout } => match root_in_output(tree, stdout) {
            Some(root) if success => Some(Ok(root)),
            _ => None,
        },
        OutcomeView::Failed { error } => if env.gap_bin is Some {
            Some(Err(cannot_run_text(gap_program(env), error)))
        } else {
            Some(
                Err(
                    "Could not run `gap --print-gaproot`. Set GAP_SYS_ROOT or GAP_SYS_GAP_BIN."@,
                ),
            )
        },
    }
}

/// The root query: what comes next after commands that ended with `outcomes`.
pub open spec fn root_query(
    env: EnvView,
    outcomes: Seq<OutcomeView>,
    tree: TreeView,
) -> StepView<Seq<u8>> {
    if outcomes.len() == 0 {
        StepView::Run(
            CommandView { program: gap_program(env), args: seq!["--print-gaproot"@] },
        )
    } else {
        match first_answer(env, outcomes[0], tree) {
            Some(answer) => StepView::Finished(answer),
            None => if outcomes.len() == 1 {
                StepView::Run(
                    CommandView {
                        program: gap_program(env),
                        args: seq!["-q"@, "-c"@, GAP_ROOT_QUERY@],
                    },
                )
            } else {
                StepView::Finished(second_answer(env, outcomes[1], tree))
            },
        }
    }
}

/// The header directories in use: those that were set, else those that go with the root.
pub open spec fn chosen_header_dirs(env: EnvView, tree: TreeView, root: Seq<u8>) -> Seq<Seq<u8>> {
    match env.include_dirs {
        Some(list) => path_entries(list, env.list_separator),
        None => header_dirs_of(tree, root),
    }
}

/// The library directories in use: those that were set, else those that go with the root.
pub open spec fn chosen_library_dirs(env: EnvView, tree: TreeView, root: Seq<u8>) -> Seq<Seq<u8>> {
    match env.lib_dirs {
        Some(list) => path_entries(list, env.list_separator),
        None => library_dirs_of(tree, root),
    }
}

/// What is said when no header directory holds GAP's headers.
pub open spec fn no_headers_text(dirs: Seq<Seq<u8>>) -> Seq<char> {
    "Could not find GAP headers. Tried include directories: "@ + paths_text(dirs)
        + ". Set GAP_SYS_INCLUDE_DIRS or GAP_SYS_ROOT."@
}

/// What is said when no library directory holds libgap.
pub open spec fn no_libgap_text(dirs: Seq<Seq<u8>>) -> Seq<char> {
    "Could not find libgap. Tried library directories: "@ + paths_text(dirs)
        + ". Set GAP_SYS_LIB_DIRS or GAP_SYS_ROOT."@
}

/// The configuration around a root that was set or printed.
pub open spec fn config_at(env: EnvView, tree: TreeView, root: Seq<u8>) -> Result<
    ConfigView,
    Seq<char>,
> {
    match resolved_root(tree, root) {
        Err(text) => Err(text),
        Ok(core) => {
            let include_dirs = chosen_header_dirs(env, tree, core);
            let lib_dirs = chosen_library_dirs(env, tree, core);
            match layout_of(tree, include_dirs) {
                None => Err(no_headers_text(include_dirs)),
                Some(header_layout) => if some_hold_libgap(tree, lib_dirs) {
                    Ok(ConfigView { root: core, include_dirs, lib_dirs, header_layout })
                } else {
                    Err(no_libgap_text(lib_dirs))
                },
            }
        },
    }
}

/// Discovery: what comes next after commands that ended with `outcomes`.
pub open spec fn discovery(
    env: EnvView,
    outcomes: Seq<OutcomeView>,
    tree: TreeView,
) -> StepView<ConfigView> {
    match nonempty(env.root) {
        Some(root) => StepView::Finished(config_at(env, tree, root)),
        None => match root_query(env, outcomes, tree) {
            StepView::Run(command) => StepView::Run(command),
            StepView::Finished(Err(text)) => StepView::Finished(Err(text)),
            StepView::Finished(Ok(root)) => StepView::Finished(config_at(env, tree, root)),
        },
    }
}

}
