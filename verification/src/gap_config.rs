//! GAP installation discovery.
//!
//! A build needs three pieces of information: the runtime GAP root, the
//! directories containing GAP headers, and the directories containing libgap.
//! The functions here decide them from the settings, from what was seen of the
//! file system, and from how the commands ended that were asked for.

use crate::discovery_spec::{
    candidates_of, cannot_run_text, config_at, discovery, entry_len, first_answer, first_core_line,
    first_core_root, first_directory_line, gap_program, has_headers, header_dirs_of, holds_libgap,
    is_core_root, is_libgap_entry, is_libgap_name, is_quote, layout_of, library_dirs_of,
    looks_like_path, no_root_printed_text, nonempty, path_entries, path_entry, path_on_line,
    query_failed_text, resolved_root, root_in_output, root_query, second_answer,
    source_header_dirs, unquoted, with_header_prefix, with_library_children, with_library_dir,
    with_library_dirs_under, with_nearby, CommandView, ConfigView, EnvView, OutcomeView, StepView,
};
use crate::discovery_spec::{COLON, GAP_ROOT_QUERY, QUOTE, SEMICOLON};
use crate::header::HeaderLayout;
use crate::path::{below, display_paths, push_unique, PosixPath};
use crate::text::{
    ends_with, lines, same_text, split_lines, starts_with, text_of, trim, utf8_lossy, utf8_text,
};
use crate::tree::Tree;
use vstd::prelude::*;
use vstd::string::*;

verus! {

/// Environment variable for the GAP runtime root containing `lib/init.g`.
pub const GAP_SYS_ROOT: &'static str = "GAP_SYS_ROOT";

/// Environment variable for the GAP executable used during root discovery.
pub const GAP_SYS_GAP_BIN: &'static str = "GAP_SYS_GAP_BIN";

/// Environment variable containing a platform-separated list of header dirs.
pub const GAP_SYS_INCLUDE_DIRS: &'static str = "GAP_SYS_INCLUDE_DIRS";

/// Environment variable containing a platform-separated list of libgap dirs.
pub const GAP_SYS_LIB_DIRS: &'static str = "GAP_SYS_LIB_DIRS";

/// Complete build-time configuration for libgap.
#[derive(Clone, Debug, PartialEq, Eq)]
pub struct GapConfig {
    /// Runtime GAP root containing `lib/init.g`.
    pub root: PosixPath,
    /// Include directories passed to clang and `cc`.
    pub include_dirs: Vec<PosixPath>,
    /// Native library search directories passed to rustc.
    pub lib_dirs: Vec<PosixPath>,
    /// Header layout used when generating the wrapper header.
    pub header_layout: HeaderLayout,
}

impl DeepView for GapConfig {
    type V = ConfigView;

    open spec fn deep_view(&self) -> ConfigView {
        ConfigView {
            root: self.root@,
            include_dirs: self.include_dirs.deep_view(),
            lib_dirs: self.lib_dirs.deep_view(),
            header_layout: self.header_layout,
        }
    }
}

/// Captured GAP discovery environment.
#[derive(Clone, Debug)]
pub struct DiscoveryEnv {
    /// Optional `GAP_SYS_ROOT` value.
    pub root: Option<PosixPath>,
    /// Optional `GAP_SYS_GAP_BIN` value.
    pub gap_bin: Option<PosixPath>,
    /// Optional `GAP_SYS_INCLUDE_DIRS` value, a path list.
    pub include_dirs: Option<Vec<u8>>,
    /// Optional `GAP_SYS_LIB_DIRS` value, a path list.
    pub lib_dirs: Option<Vec<u8>>,
    /// What stands between the entries of a path list on the platform: `:` on POSIX
    /// systems, `;` on Windows, where entries can be quoted.
    pub list_separator: u8,
}

impl DeepView for DiscoveryEnv {
    type V = EnvView;

    open spec fn deep_view(&self) -> EnvView {
        EnvView {
            root: self.root.deep_view(),
            gap_bin: self.gap_bin.deep_view(),
            include_dirs: bytes_view(self.include_dirs),
            lib_dirs: bytes_view(self.lib_dirs),
            list_separator: self.list_separator,
        }
    }
}

/// The bytes of a setting that is there.
pub open spec fn bytes_view(setting: Option<Vec<u8>>) -> Option<Seq<u8>> {
    match setting {
        Some(bytes) => Some(bytes@),
        None => None,
    }
}

impl Default for DiscoveryEnv {
    fn default() -> (env: Self)
        ensures
            env.deep_view() == (EnvView {
                root: None,
                gap_bin: None,
                include_dirs: None,
                lib_dirs: None,
                list_separator: COLON,
            }),
    {
        DiscoveryEnv {
            root: None,
            gap_bin: None,
            include_dirs: None,
            lib_dirs: None,
            list_separator: COLON,
        }
    }
}

/// A command to run with its standard input closed.
#[derive(Clone, Debug)]
pub struct GapCommand {
    /// The executable.
    pub program: PosixPath,
    /// Its arguments.
    pub args: Vec<String>,
}

impl DeepView for GapCommand {
    type V = CommandView;

    open spec fn deep_view(&self) -> CommandView {
        CommandView { program: self.program@, args: self.args.deep_view() }
    }
}

/// How a command ended.
#[derive(Clone, Debug)]
pub enum CommandOutcome {
    /// It ran: whether it succeeded, its status for a reader, and what it printed.
    Exited { success: bool, status: String, stdout: Vec<u8> },
    /// It could not be run, for the reason given.
    Failed { error: String },
}

impl DeepView for CommandOutcome {
    type V = OutcomeView;

    open spec fn deep_view(&self) -> OutcomeView {
        match self {
            CommandOutcome::Exited { success, status, stdout } => OutcomeView::Exited {
                success: *success,
                status: status@,
                stdout: stdout@,
            },
            CommandOutcome::Failed { error } => OutcomeView::Failed { error: error@ },
        }
    }
}

/// What comes next: a command to run, or the result.
#[derive(Debug)]
pub enum Step<T> {
    /// Run this command, append how it ended to the outcomes, and ask again.
    Run(GapCommand),
    /// Nothing more to run.
    Finished(Result<T, String>),
}

impl<T: DeepView> DeepView for Step<T> {
    type V = StepView<T::V>;

    open spec fn deep_view(&self) -> StepView<T::V> {
        match self {
            Step::Run(command) => StepView::Run(command.deep_view()),
            Step::Finished(Ok(value)) => StepView::Finished(Ok(value.deep_view())),
            Step::Finished(Err(text)) => StepView::Finished(Err(text@)),
        }
    }
}

/// The text of a result's error, or the view of its value.
pub open spec fn result_view<T: DeepView>(result: Result<T, String>) -> Result<T::V, Seq<char>> {
    match result {
        Ok(value) => Ok(value.deep_view()),
        Err(text) => Err(text@),
    }
}

/// Returns whether `path` has a shape worth treating as a filesystem path.
///
/// This deliberately stays syntactic so it can accept paths that may only
/// become valid after root candidate resolution.
pub fn is_plausible_path(path: &str) -> (b: bool)
    ensures
        b == looks_like_path(path@),
{
    if starts_with(path, "/") || starts_with(path, "\\") || starts_with(path, "./") || starts_with(
        path,
        "../",
    ) {
        return true;
    }
    let bytes = path.as_bytes();
    bytes.len() > 1 && bytes[1] == 0x3a
}

/// Parses one possible path line from GAP command output.
///
/// GAP prompts such as `gap>` are stripped before checking whether the
/// remaining text looks like a filesystem path.
pub fn parse_gap_root_line(line: &str) -> (path: Option<PosixPath>)
    ensures
        path.deep_view() == path_on_line(line@),
{
    let line = trim(line);
    let rest = if starts_with(line, "gap>") {
        let n: usize = line.unicode_len();
        let prompt: usize = "gap>".unicode_len();
        let rest = line.substring_char(prompt, n);
        assert(rest@ =~= line@.skip(prompt as int));
        rest
    } else {
        line
    };
    let line = trim(rest);
    if line.is_empty() || !is_plausible_path(line) {
        return None;
    }
    Some(PosixPath::from_text(line))
}

/// Whether `root` contains `lib/init.g`.
pub fn has_init_file(tree: &Tree, root: &PosixPath) -> (b: bool)
    ensures
        b == is_core_root(tree@, root@),
{
    tree.is_file(&root.join("lib").join("init.g"))
}

/// Extracts the best GAP root candidate from command output.
///
/// The parser tolerates startup banners, prompts, and warnings. It prefers a
/// path that already contains `lib/init.g`, but keeps the first existing
/// directory as a fallback for later resolution.
pub fn parse_gap_root_stdout(stdout: &[u8], tree: &Tree) -> (root: Option<PosixPath>)
    ensures
        root.deep_view() == root_in_output(tree@, stdout@),
{
    let text = utf8_lossy(stdout);
    let rows = lines(text.as_str());
    let ghost all = rows.deep_view();
    let mut existing_dir: Option<PosixPath> = None;
    let mut i: usize = 0;
    assert(all.skip(0) =~= all);
    while i < rows.len()
        invariant
            i <= rows.len(),
            all == rows.deep_view(),
            all == split_lines(text_of(stdout@)),
            first_core_line(tree@, all) == first_core_line(tree@, all.skip(i as int)),
            match existing_dir {
                Some(dir) => first_directory_line(tree@, all) == Some(dir@),
                None => first_directory_line(tree@, all) == first_directory_line(
                    tree@,
                    all.skip(i as int),
                ),
            },
        decreases rows.len() - i,
    {
        assert(all.skip(i as int)[0] == rows@[i as int]@);
        assert(all.skip(i as int).skip(1) =~= all.skip(i + 1));
        if let Some(path) = parse_gap_root_line(rows[i].as_str()) {
            if has_init_file(tree, &path) {
                return Some(path);
            }
            if existing_dir.is_none() && tree.is_dir(&path) {
                existing_dir = Some(path);
            }
        }
        i = i + 1;
    }
    existing_dir
}

/// Returns candidate runtime roots near `root`.
///
/// The first candidate is always the supplied root. Nearby `libexec`,
/// `share/gap`, and `lib/gap` directories are then added while preserving order
/// and uniqueness.
pub fn gap_root_candidates(root: &PosixPath) -> (candidates: Vec<PosixPath>)
    ensures
        candidates.deep_view() == candidates_of(root@),
{
    let mut candidates: Vec<PosixPath> = Vec::new();
    assert(candidates.deep_view() =~= seq![]);
    push_unique(&mut candidates, root.clone());
    let ghost start = candidates.deep_view();
    let bases = root.ancestors(4);
    let ghost all = bases.deep_view();
    let mut i: usize = 0;
    assert(all.take(0) =~= seq![]);
    while i < bases.len()
        invariant
            i <= bases.len(),
            all == bases.deep_view(),
            candidates.deep_view() == with_nearby(start, all.take(i as int)),
        decreases bases.len() - i,
    {
        let base = &bases[i];
        assert(all.take(i + 1).drop_last() =~= all.take(i as int));
        assert(all.take(i + 1).last() == base@);
        push_unique(&mut candidates, base.join("libexec"));
        push_unique(&mut candidates, base.join("share").join("gap"));
        push_unique(&mut candidates, base.join("lib").join("gap"));
        i = i + 1;
    }
    assert(all.take(i as int) =~= all);
    candidates
}

/// Resolves a printed or configured root to the directory containing `lib/init.g`.
///
/// Package managers sometimes report a package root such as `share/gap` or
/// `lib/gap` while the embeddable runtime lives in a nearby `libexec`
/// directory. Candidate probing handles those common layouts.
pub fn resolve_gap_root(root: &PosixPath, tree: &Tree) -> (result: Result<PosixPath, String>)
    ensures
        result_view(result) == resolved_root(tree@, root@),
{
    let candidates = gap_root_candidates(root);
    let ghost all = candidates.deep_view();
    let mut i: usize = 0;
    assert(all.skip(0) =~= all);
    while i < candidates.len()
        invariant
            i <= candidates.len(),
            all == candidates.deep_view(),
            all == candidates_of(root@),
            first_core_root(tree@, all) == first_core_root(tree@, all.skip(i as int)),
        decreases candidates.len() - i,
    {
        assert(all.skip(i as int)[0] == candidates@[i as int]@);
        if has_init_file(tree, &candidates[i]) {
            return Ok(candidates[i].clone());
        }
        assert(all.skip(i as int).skip(1) =~= all.skip(i + 1));
        i = i + 1;
    }
    let mut text = "GAP root `".to_owned();
    text.append(root.display().as_str());
    text.append("` does not contain `lib/init.g`. Tried: ");
    text.append(display_paths(&candidates).as_str());
    text.append(". Set GAP_SYS_ROOT to a valid GAP root.");
    Err(text)
}

/// Whether `dir` holds GAP's headers.
fn headers_in(tree: &Tree, dir: &PosixPath) -> (b: bool)
    ensures
        b == has_headers(tree@, dir@),
{
    tree.is_file(&dir.join("libgap-api.h")) && tree.is_file(&dir.join("gap_all.h"))
}

/// Adds `dir` when it contains installed-style GAP headers.
pub fn push_include_candidate(dirs: &mut Vec<PosixPath>, dir: PosixPath, tree: &Tree)
    ensures
        final(dirs).deep_view() == with_header_prefix(tree@, old(dirs).deep_view(), dir@),
{
    if headers_in(tree, &dir.join("gap")) {
        push_unique(dirs, dir);
    }
}

/// Infers include directories from a resolved GAP runtime root.
///
/// Source-tree layouts expose headers directly under `src` and generated
/// headers under `build`. Installed layouts expose headers under an include
/// prefix with a `gap/` subdirectory.
pub fn infer_include_dirs(root: &PosixPath, tree: &Tree) -> (dirs: Vec<PosixPath>)
    ensures
        dirs.deep_view() == header_dirs_of(tree@, root@),
{
    let mut dirs: Vec<PosixPath> = Vec::new();
    assert(dirs.deep_view() =~= seq![]);
    let source_dir = root.join("src");
    if headers_in(tree, &source_dir) {
        push_unique(&mut dirs, source_dir);
        let build_dir = root.join("build");
        if tree.is_dir(&build_dir) {
            push_unique(&mut dirs, build_dir);
        }
    }
    assert(dirs.deep_view() == source_header_dirs(tree@, root@));
    push_include_candidate(&mut dirs, root.join("include"), tree);
    if let Some(parent) = root.parent() {
        push_include_candidate(&mut dirs, parent.join("include"), tree);
        if let Some(prefix) = parent.parent() {
            push_include_candidate(&mut dirs, prefix.join("include"), tree);
        }
    }
    dirs
}

/// Detects whether include directories use installed or direct header layout.
///
/// Installed `gap/` subdirectories are preferred because they match normal
/// compiler include-prefix conventions.
pub fn find_header_layout(include_dirs: &Vec<PosixPath>, tree: &Tree) -> (layout: Option<
    HeaderLayout,
>)
    ensures
        layout == layout_of(tree@, include_dirs.deep_view()),
{
    let ghost all = include_dirs.deep_view();
    let mut i: usize = 0;
    while i < include_dirs.len()
        invariant
            i <= include_dirs.len(),
            all == include_dirs.deep_view(),
            forall|j: int| 0 <= j < i ==> !has_headers(tree@, below(#[trigger] all[j], "gap")),
        decreases include_dirs.len() - i,
    {
        assert(all[i as int] == include_dirs@[i as int]@);
        if headers_in(tree, &include_dirs[i].join("gap")) {
            return Some(HeaderLayout::IncludeSubdir);
        }
        i = i + 1;
    }
    i = 0;
    while i < include_dirs.len()
        invariant
            i <= include_dirs.len(),
            all == include_dirs.deep_view(),
            forall|j: int|
                0 <= j < all.len() ==> !has_headers(tree@, below(#[trigger] all[j], "gap")),
            forall|j: int| 0 <= j < i ==> !has_headers(tree@, #[trigger] all[j]),
        decreases include_dirs.len() - i,
    {
        assert(all[i as int] == include_dirs@[i as int]@);
        if headers_in(tree, &include_dirs[i]) {
            return Some(HeaderLayout::Direct);
        }
        i = i + 1;
    }
    None
}

/// Matches common shared, static, versioned, and Windows libgap filenames.
pub fn is_libgap_file_name(name: &str) -> (b: bool)
    ensures
        b == is_libgap_name(name@),
{
    same_text(name, "libgap.so") || same_text(name, "libgap.dylib") || same_text(name, "libgap.a")
        || same_text(name, "libgap.dll") || same_text(name, "libgap.dll.a") || same_text(
        name,
        "gap.dll",
    ) || starts_with(name, "libgap.so.") || (starts_with(name, "libgap.") && ends_with(
        name,
        ".dylib",
    ))
}

/// Returns whether `dir` contains a recognizable libgap artifact.
pub fn contains_libgap(dir: &PosixPath, tree: &Tree) -> (b: bool)
    ensures
        b == holds_libgap(tree@, dir@),
{
    let entries = match tree.read_dir(dir) {
        Some(entries) => entries,
        None => return false,
    };
    let ghost all = entries.deep_view();
    let mut i: usize = 0;
    while i < entries.len()
        invariant
            i <= entries.len(),
            all == entries.deep_view(),
            tree@.listing(dir@) == Some(all),
            forall|j: int| 0 <= j < i ==> !is_libgap_entry(#[trigger] all[j]),
        decreases entries.len() - i,
    {
        assert(all[i as int] =~= entries@[i as int]@);
        if let Some(name) = utf8_text(entries[i].as_slice()) {
            if is_libgap_file_name(name.as_str()) {
                assert(is_libgap_entry(all[i as int]));
                return true;
            }
        }
        i = i + 1;
    }
    false
}

/// Adds `dir` if it contains a recognized libgap library file.
pub fn push_lib_candidate(dirs: &mut Vec<PosixPath>, dir: PosixPath, tree: &Tree)
    ensures
        final(dirs).deep_view() == with_library_dir(tree@, old(dirs).deep_view(), dir@),
{
    if contains_libgap(&dir, tree) {
        push_unique(dirs, dir);
    }
}

/// Adds `dir` and its immediate child directories when they contain libgap.
///
/// Immediate children cover layouts such as `lib/x86_64-linux-gnu` without a
/// recursive filesystem walk.
pub fn push_lib_candidates_under(dirs: &mut Vec<PosixPath>, dir: PosixPath, tree: &Tree)
    ensures
        final(dirs).deep_view() == with_library_dirs_under(tree@, old(dirs).deep_view(), dir@),
{
    push_lib_candidate(dirs, dir.clone(), tree);
    let entries = match tree.read_dir(&dir) {
        Some(entries) => entries,
        None => return ,
    };
    let ghost start = dirs.deep_view();
    let ghost all = entries.deep_view();
    let mut i: usize = 0;
    assert(all.take(0) =~= seq![]);
    while i < entries.len()
        invariant
            i <= entries.len(),
            all == entries.deep_view(),
            dirs.deep_view() == with_library_children(tree@, start, dir@, all.take(i as int)),
        decreases entries.len() - i,
    {
        assert(all.take(i + 1).drop_last() =~= all.take(i as int));
        assert(all.take(i + 1).last() =~= entries@[i as int]@);
        let path = dir.join_bytes(entries[i].as_slice());
        if tree.is_dir(&path) {
            push_lib_candidate(dirs, path, tree);
        }
        i = i + 1;
    }
    assert(all.take(i as int) =~= all);
}

/// Infers native library search directories from a resolved GAP root.
///
/// The search covers the root itself, nearby `lib` directories, common
/// multiarch children, and `lib64` under an installation prefix.
pub fn infer_lib_dirs(root: &PosixPath, tree: &Tree) -> (dirs: Vec<PosixPath>)
    ensures
        dirs.deep_view() == library_dirs_of(tree@, root@),
{
    let mut dirs: Vec<PosixPath> = Vec::new();
    assert(dirs.deep_view() =~= seq![]);
    push_lib_candidate(&mut dirs, root.clone(), tree);
    push_lib_candidates_under(&mut dirs, root.join("lib"), tree);
    if let Some(parent) = root.parent() {
        push_lib_candidate(&mut dirs, parent.clone(), tree);
        push_lib_candidates_under(&mut dirs, parent.join("lib"), tree);
        if let Some(prefix) = parent.parent() {
            if prefix.parent().is_some() {
                push_lib_candidates_under(&mut dirs, prefix.join("lib"), tree);
                push_lib_candidates_under(&mut dirs, prefix.join("lib64"), tree);
            }
        }
    }
    dirs
}

/// Parses a platform-separated path-list environment value.
///
/// Empty entries are ignored so accidental leading or trailing separators do
/// not become the current directory. Where `;` stands between the entries, a part in
/// double quotes belongs to its entry as it is, and the quotes do not.
pub fn parse_path_list(paths: &[u8], separator: u8) -> (list: Vec<PosixPath>)
    ensures
        list.deep_view() == path_entries(paths@, separator),
{
    let mut list: Vec<PosixPath> = Vec::new();
    let mut entry: Vec<u8> = Vec::new();
    let mut quoted: bool = false;
    let ghost mut start: int = 0;
    let mut i: usize = 0;
    assert(paths@.skip(0) =~= paths@);
    assert(list.deep_view() + path_entries(paths@, separator) =~= path_entries(paths@, separator));
    proof {
        lemma_unquoted_grows(paths@, 0, 0, separator);
    }
    while i < paths.len()
        invariant
            0 <= start <= i <= paths.len(),
            path_entries(paths@, separator) == list.deep_view() + path_entries(
                paths@.skip(start),
                separator,
            ),
            entry_len(paths@.skip(start), separator, false) == i - start + entry_len(
                paths@.skip(i as int),
                separator,
                quoted,
            ),
            entry@ == unquoted(paths@.subrange(start, i as int), separator),
        decreases paths.len() - i,
    {
        let byte = paths[i];
        proof {
            assert(paths@.skip(i as int)[0] == byte);
            assert(paths@.skip(i as int).skip(1) =~= paths@.skip(i + 1));
            lemma_unquoted_grows(paths@, start, i as int, separator);
        }
        if byte == separator && !quoted {
            let ghost before = list.deep_view();
            push_entry(&mut list, entry);
            entry = Vec::new();
            proof {
                let rest = paths@.skip(start);
                let cut = i - start;
                assert(rest.take(cut) =~= paths@.subrange(start, i as int));
                assert(rest.skip(cut + 1) =~= paths@.skip(i + 1));
                let first = path_entry(unquoted(rest.take(cut), separator));
                let tail = path_entries(paths@.skip(i + 1), separator);
                assert(before + (first + tail) =~= list.deep_view() + tail);
                start = i + 1;
                lemma_unquoted_grows(paths@, start, start, separator);
            }
        } else if separator == SEMICOLON && byte == QUOTE {
            quoted = !quoted;
        } else {
            entry.push(byte);
        }
        i = i + 1;
    }
    proof {
        let rest = paths@.skip(start);
        assert(rest =~= paths@.subrange(start, i as int));
    }
    push_entry(&mut list, entry);
    list
}

/// What one more byte adds to an entry: itself, unless it is a quote.
proof fn lemma_unquoted_grows(paths: Seq<u8>, start: int, end: int, separator: u8)
    requires
        0 <= start <= end <= paths.len(),
    ensures
        unquoted(paths.subrange(start, start), separator) == Seq::<u8>::empty(),
        end < paths.len() ==> unquoted(paths.subrange(start, end + 1), separator) == (if is_quote(
            paths[end],
            separator,
        ) {
            unquoted(paths.subrange(start, end), separator)
        } else {
            unquoted(paths.subrange(start, end), separator).push(paths[end])
        }),
{
    reveal(Seq::filter);
    if end < paths.len() {
        assert(paths.subrange(start, end + 1).drop_last() =~= paths.subrange(start, end));
    }
}

/// Appends an entry, unless it is empty.
fn push_entry(list: &mut Vec<PosixPath>, entry: Vec<u8>)
    ensures
        final(list).deep_view() == old(list).deep_view() + path_entry(entry@),
{
    if entry.len() > 0 {
        list.push(PosixPath { bytes: entry });
    }
    assert(list.deep_view() =~= old(list).deep_view() + path_entry(entry@));
}

/// A setting that is there and not empty.
pub fn nonempty_path(path: &Option<PosixPath>) -> (result: Option<PosixPath>)
    ensures
        result.deep_view() == nonempty(path.deep_view()),
{
    match path {
        Some(path) => if path.is_empty() {
            None
        } else {
            Some(path.clone())
        },
        None => None,
    }
}

/// How to ask a GAP executable for a usable runtime root.
///
/// The preferred command is `gap --print-gaproot`. If that does not produce a
/// valid root, the query falls back to evaluating `GAP_ROOT_QUERY` through
/// GAP itself for compatibility with older releases. `outcomes` holds how the
/// commands asked for so far ended, in order.
pub fn query_gap_root(env: &DiscoveryEnv, outcomes: &Vec<CommandOutcome>, tree: &Tree) -> (step:
    Step<PosixPath>)
    ensures
        step.deep_view() == root_query(env.deep_view(), outcomes.deep_view(), tree@),
{
    let explicit_gap_bin: bool = env.gap_bin.is_some();
    let gap_bin = match nonempty_path(&env.gap_bin) {
        Some(bin) => bin,
        None => PosixPath::from_text("gap"),
    };
    assert(gap_bin@ == gap_program(env.deep_view()));
    if outcomes.len() == 0 {
        let args = owned_texts1("--print-gaproot");
        return Step::Run(GapCommand { program: gap_bin, args });
    }
    match &outcomes[0] {
        CommandOutcome::Exited { success, status: _, stdout } => {
            if *success {
                if let Some(root) = parse_gap_root_stdout(stdout.as_slice(), tree) {
                    return Step::Finished(Ok(root));
                }
            }
        },
        CommandOutcome::Failed { error } => {
            return Step::Finished(
                Err(
                    if explicit_gap_bin {
                        cannot_run(&gap_bin, error.as_str())
                    } else {
                        "Could not run `gap --print-gaproot`. Set GAP_SYS_ROOT or GAP_SYS_GAP_BIN.".to_owned()
                    },
                ),
            );
        },
    }
    assert(first_answer(env.deep_view(), outcomes.deep_view()[0], tree@) is None);
    if outcomes.len() == 1 {
        let args = owned_texts3("-q", "-c", GAP_ROOT_QUERY);
        return Step::Run(GapCommand { program: gap_bin, args });
    }
    let answer: Result<PosixPath, String> = match &outcomes[1] {
        CommandOutcome::Exited { success, status, stdout } => if *success {
            match parse_gap_root_stdout(stdout.as_slice(), tree) {
                Some(root) => Ok(root),
                None => Err(no_root_printed(&gap_bin)),
            }
        } else if explicit_gap_bin {
            Err(query_failed(&gap_bin, status.as_str()))
        } else {
            Err(
                "Could not discover GAP root with `gap --print-gaproot` or a GAPInfo.RootPaths query. Set GAP_SYS_ROOT.".to_owned(),
            )
        },
        CommandOutcome::Failed { error } => if explicit_gap_bin {
            Err(cannot_run(&gap_bin, error.as_str()))
        } else {
            Err(
                "Could not run GAP root discovery commands. Set GAP_SYS_ROOT or GAP_SYS_GAP_BIN.".to_owned(),
            )
        },
    };
    assert(result_view(answer) == second_answer(env.deep_view(), outcomes.deep_view()[1], tree@));
    Step::Finished(answer)
}

fn owned_texts1(a: &str) -> (texts: Vec<String>)
    ensures
        texts.deep_view() == seq![a@],
{
    let mut texts: Vec<String> = Vec::new();
    texts.push(a.to_owned());
    assert(texts.deep_view() =~= seq![a@]);
    texts
}

fn owned_texts3(a: &str, b: &str, c: &str) -> (texts: Vec<String>)
    ensures
        texts.deep_view() == seq![a@, b@, c@],
{
    let mut texts: Vec<String> = Vec::new();
    texts.push(a.to_owned());
    texts.push(b.to_owned());
    texts.push(c.to_owned());
    assert(texts.deep_view() =~= seq![a@, b@, c@]);
    texts
}

fn cannot_run(bin: &PosixPath, error: &str) -> (text: String)
    ensures
        text@ == cannot_run_text(bin@, error@),
{
    let mut text = "Could not run `".to_owned();
    text.append(bin.display().as_str());
    text.append("`: ");
    text.append(error);
    text.append(". Set GAP_SYS_ROOT.");
    text
}

fn no_root_printed(bin: &PosixPath) -> (text: String)
    ensures
        text@ == no_root_printed_text(bin@),
{
    let mut text = "`".to_owned();
    text.append(bin.display().as_str());
    text.append(" -q -c <gap-root-query>` did not print a usable GAP root. Set GAP_SYS_ROOT.");
    text
}

fn query_failed(bin: &PosixPath, status: &str) -> (text: String)
    ensures
        text@ == query_failed_text(bin@, status@),
{
    let mut text = "`".to_owned();
    text.append(bin.display().as_str());
    text.append(" -q -c <gap-root-query>` failed with status ");
    text.append(status);
    text.append(". Set GAP_SYS_ROOT.");
    text
}

/// The configuration around a root that was set or printed.
fn config_around(env: &DiscoveryEnv, root: &PosixPath, tree: &Tree) -> (result: Result<
    GapConfig,
    String,
>)
    ensures
        result_view(result) == config_at(env.deep_view(), tree@, root@),
{
    let root = match resolve_gap_root(root, tree) {
        Ok(root) => root,
        Err(text) => return Err(text),
    };
    let include_dirs = match &env.include_dirs {
        Some(paths) => parse_path_list(paths.as_slice(), env.list_separator),
        None => infer_include_dirs(&root, tree),
    };
    let header_layout = match find_header_layout(&include_dirs, tree) {
        Some(layout) => layout,
        None => {
            let mut text = "Could not find GAP headers. Tried include directories: ".to_owned();
            text.append(display_paths(&include_dirs).as_str());
            text.append(". Set GAP_SYS_INCLUDE_DIRS or GAP_SYS_ROOT.");
            return Err(text);
        },
    };
    let lib_dirs = match &env.lib_dirs {
        Some(paths) => parse_path_list(paths.as_slice(), env.list_separator),
        None => infer_lib_dirs(&root, tree),
    };
    let ghost all = lib_dirs.deep_view();
    let mut found: bool = false;
    let mut i: usize = 0;
    while i < lib_dirs.len()
        invariant
            i <= lib_dirs.len(),
            all == lib_dirs.deep_view(),
            found == exists|j: int| 0 <= j < i && holds_libgap(tree@, #[trigger] all[j]),
        decreases lib_dirs.len() - i,
    {
        assert(all[i as int] == lib_dirs@[i as int]@);
        if contains_libgap(&lib_dirs[i], tree) {
            found = true;
        }
        i = i + 1;
    }
    if !found {
        let mut text = "Could not find libgap. Tried library directories: ".to_owned();
        text.append(display_paths(&lib_dirs).as_str());
        text.append(". Set GAP_SYS_LIB_DIRS or GAP_SYS_ROOT.");
        return Err(text);
    }
    Ok(GapConfig { root, include_dirs, lib_dirs, header_layout })
}

/// Discovers the GAP root, include directories, library directories, and layout.
///
/// Explicit environment values take precedence. If no root is supplied, a GAP
/// executable is queried: `outcomes` holds how the commands asked for so far
/// ended, in order. Include and library directories are inferred from the
/// resolved root unless their corresponding environment variables are set.
pub fn discover_gap_config(env: &DiscoveryEnv, outcomes: &Vec<CommandOutcome>, tree: &Tree) -> (
step: Step<GapConfig>)
    ensures
        step.deep_view() == discovery(env.deep_view(), outcomes.deep_view(), tree@),
{
    match nonempty_path(&env.root) {
        Some(root) => Step::Finished(config_around(env, &root, tree)),
        None => match query_gap_root(env, outcomes, tree) {
            Step::Run(command) => Step::Run(command),
            Step::Finished(Ok(root)) => Step::Finished(config_around(env, &root, tree)),
            Step::Finished(Err(text)) => Step::Finished(Err(text)),
        },
    }
}


/// The settings are read under the names that the documentation gives them.
pub proof fn law_names_of_settings()
    ensures
        GAP_SYS_ROOT@ == "GAP_SYS_ROOT"@,
        GAP_SYS_GAP_BIN@ == "GAP_SYS_GAP_BIN"@,
        GAP_SYS_INCLUDE_DIRS@ == "GAP_SYS_INCLUDE_DIRS"@,
        GAP_SYS_LIB_DIRS@ == "GAP_SYS_LIB_DIRS"@,
{
}

}
