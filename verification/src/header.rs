//! The C header through which libgap is bound.

use vstd::prelude::*;
use vstd::string::*;

verus! {

/// Header include style used by the local GAP installation.
#[derive(Clone, Copy, Debug, PartialEq, Eq, Structural)]
pub enum HeaderLayout {
    /// Headers are under an include prefix, for example `include/gap/gap_all.h`.
    IncludeSubdir,
    /// Headers are directly in a source directory, for example `src/gap_all.h`.
    Direct,
}

/// The wrapper header before the lines that bring in GAP's own headers.
pub const HEADER_TOP: &'static str = "// Generated by gap-sys build.rs.
// We must define EXPORT_INLINE as static inline for bindgen to work with libgap.
#define EXPORT_INLINE static inline

// Include all of GAP's headers.
";

/// The lines that bring in GAP's headers from under an include prefix.
pub const SUBDIR_LINES: &'static str = "#include <gap/libgap-api.h>\n#include <gap/gap_all.h>";

/// The lines that bring in GAP's headers from a source directory.
pub const DIRECT_LINES: &'static str = "#include \"libgap-api.h\"\n#include \"gap_all.h\"";

/// The wrapper header after those lines: shims over macros and over calls that vary
/// between GAP releases.
pub const HEADER_BOTTOM: &'static str = "

// Wrapper around macros and version-varying libgap APIs.
#if defined(GAP_CallbackFunc)
typedef GAP_CallbackFunc SYSGAP_CallbackFunc;
#else
typedef void (*SYSGAP_CallbackFunc)(void);
#endif

static inline void SYSGAP_Initialize(
    int argc,
    char ** argv,
    SYSGAP_CallbackFunc markBagsCallback,
    SYSGAP_CallbackFunc errorCallback,
    int handleSignals) {
#if defined(GAP_Enter)
    GAP_Initialize(argc, argv, markBagsCallback, errorCallback, handleSignals);
#else
    (void)handleSignals;
    GAP_Initialize(argc, argv, 0, markBagsCallback, errorCallback);
#endif
}

#if defined(GAP_Enter)
static inline int SYSGAP_Enter() {
    return GAP_Enter();
}

static inline void SYSGAP_Leave() {
    GAP_Leave();
}
#endif

#if defined(GAP_KERNEL_API_VERSION) && GAP_KERNEL_API_VERSION >= 8000
static TypOutputFile SYSGAP_OUTPUT_STREAM = { 0 };
#endif

static inline UInt SYSGAP_OpenOutputStream(Obj stream) {
#if defined(GAP_KERNEL_API_VERSION) && GAP_KERNEL_API_VERSION >= 8000
    return OpenOutputStream(&SYSGAP_OUTPUT_STREAM, stream);
#else
    return OpenOutputStream(stream);
#endif
}

static inline UInt SYSGAP_CloseOutput(void) {
#if defined(GAP_KERNEL_API_VERSION) && GAP_KERNEL_API_VERSION >= 8000
    return CloseOutput(&SYSGAP_OUTPUT_STREAM);
#else
    return CloseOutput();
#endif
}

static inline Obj SYSGAP_CallFunc2Args(Obj func, Obj a1, Obj a2) {
#if defined(GAP_Enter)
    Obj args[2] = { a1, a2 };
    return GAP_CallFuncArray(func, 2, args);
#else
    return CALL_2ARGS(func, a1, a2);
#endif
}

static inline void SYSGAP_MarkBag(Obj obj) {
#if defined(GAP_KERNEL_API_VERSION) && GAP_KERNEL_API_VERSION >= 8000
    GAP_MarkBag(obj);
#else
    MarkBag(obj);
#endif
}
";

/// The lines that bring in GAP's headers.
pub open spec fn header_lines(layout: HeaderLayout) -> Seq<char> {
    match layout {
        HeaderLayout::IncludeSubdir => SUBDIR_LINES@,
        HeaderLayout::Direct => DIRECT_LINES@,
    }
}

/// The wrapper header.
pub open spec fn header_text(layout: HeaderLayout) -> Seq<char> {
    HEADER_TOP@ + header_lines(layout) + HEADER_BOTTOM@
}

/// Generates the C wrapper header from which the bindings are made.
///
/// The wrapper normalizes GAP API differences across releases: callback
/// signatures, `GAP_Enter` availability, output stream state, function calls,
/// and bag marking.
pub fn wrapper_header(layout: &HeaderLayout) -> (text: String)
    ensures
        text@ == header_text(*layout),
{
    let lines = match layout {
        HeaderLayout::IncludeSubdir => SUBDIR_LINES,
        HeaderLayout::Direct => DIRECT_LINES,
    };
    let mut text = HEADER_TOP.to_owned();
    text.append(lines);
    text.append(HEADER_BOTTOM);
    text
}

/// Whether `piece` stands in `text` at `at`.
pub open spec fn stands_at(text: Seq<char>, piece: Seq<char>, at: int) -> bool {
    &&& 0 <= at
    &&& at + piece.len() <= text.len()
    &&& text.subrange(at, at + piece.len()) == piece
}

/// The lines that bring in GAP's headers from under an include prefix stand in that
/// layout's header exactly once; the other layout's header is the same with those lines
/// replaced; and in both, `EXPORT_INLINE` is defined before them.
pub proof fn law_headers_differ_in_lines()
    ensures
        ({
            let subdir = header_text(HeaderLayout::IncludeSubdir);
            let direct = header_text(HeaderLayout::Direct);
            let at = HEADER_TOP@.len() as int;
            let defined = "#define EXPORT_INLINE static inline"@;
            &&& stands_at(subdir, SUBDIR_LINES@, at)
            &&& forall|p: int| #[trigger] stands_at(subdir, SUBDIR_LINES@, p) ==> p == at
            &&& direct == subdir.take(at) + DIRECT_LINES@ + subdir.skip(at + SUBDIR_LINES@.len())
            &&& exists|q: int|
                q + defined.len() <= at && #[trigger] stands_at(subdir, defined, q) && stands_at(
                    direct,
                    defined,
                    q,
                )
        }),
{
    let subdir = header_text(HeaderLayout::IncludeSubdir);
    let direct = header_text(HeaderLayout::Direct);
    let at = HEADER_TOP@.len() as int;
    let lines = SUBDIR_LINES@;
    assert(subdir.subrange(at, at + lines.len()) =~= lines);
    lemma_brackets();
    assert forall|p: int| #[trigger] stands_at(subdir, lines, p) implies p == at by {
        assert(subdir.subrange(p, p + lines.len())[9] == subdir[p + 9]);
        assert(subdir.subrange(p, p + lines.len())[37] == subdir[p + 37]);
        lemma_bracket_places(p + 9);
        lemma_bracket_places(p + 37);
    }
    assert(subdir.take(at) =~= HEADER_TOP@);
    assert(subdir.skip(at + lines.len()) =~= HEADER_BOTTOM@);
    let defined = "#define EXPORT_INLINE static inline"@;
    lemma_definition_in_top();
    let q = choose|q: int| stands_at(HEADER_TOP@, defined, q);
    assert(subdir.subrange(q, q + defined.len()) =~= HEADER_TOP@.subrange(q, q + defined.len()));
    assert(direct.subrange(q, q + defined.len()) =~= HEADER_TOP@.subrange(q, q + defined.len()));
    assert(stands_at(subdir, defined, q));
}

/// Where the lines from under an include prefix hold a `<`.
proof fn lemma_brackets()
    ensures
        SUBDIR_LINES@.len() == 52,
        forall|i: int|
            0 <= i < 52 ==> ((#[trigger] SUBDIR_LINES@[i]) == '<' <==> i == 9 || i == 37),
{
    reveal_strlit("#include <gap/libgap-api.h>\n#include <gap/gap_all.h>");
}

/// A `<` in the header stands in those lines.
proof fn lemma_bracket_places(i: int)
    ensures
        ({
            let text = header_text(HeaderLayout::IncludeSubdir);
            let at = HEADER_TOP@.len();
            0 <= i < text.len() && text[i] == '<' ==> i == at + 9 || i == at + 37
        }),
{
    let text = header_text(HeaderLayout::IncludeSubdir);
    let at = HEADER_TOP@.len() as int;
    lemma_brackets();
    lemma_no_bracket_in_top();
    lemma_no_bracket_in_bottom();
    if 0 <= i < text.len() && text[i] == '<' {
        if i < at {
            assert(HEADER_TOP@[i] == '<');
        } else if i < at + 52 {
            assert(SUBDIR_LINES@[i - at] == '<');
        } else {
            assert(HEADER_BOTTOM@[i - at - 52] == '<');
        }
    }
}

proof fn lemma_definition_in_top()
    ensures
        exists|q: int| stands_at(HEADER_TOP@, "#define EXPORT_INLINE static inline"@, q),
{
    reveal_strlit("#define EXPORT_INLINE static inline");
    reveal_strlit("// Generated by gap-sys build.rs.
// We must define EXPORT_INLINE as static inline for bindgen to work with libgap.
#define EXPORT_INLINE static inline

// Include all of GAP's headers.
");
    let q: int = 116;
    assert(HEADER_TOP@.subrange(q, q + 35) =~= "#define EXPORT_INLINE static inline"@);
    assert(stands_at(HEADER_TOP@, "#define EXPORT_INLINE static inline"@, q));
}

proof fn lemma_no_bracket_in_top()
    ensures
        !HEADER_TOP@.contains('<'),
{
    reveal_strlit("// Generated by gap-sys build.rs.
// We must define EXPORT_INLINE as static inline for bindgen to work with libgap.
#define EXPORT_INLINE static inline

// Include all of GAP's headers.
");
}

// Only a literal can be revealed, so the lemmas here spell the header's pieces again.
proof fn lemma_no_bracket_in_bottom()
    ensures
        !HEADER_BOTTOM@.contains('<'),
{
    reveal_strlit("

// Wrapper around macros and version-varying libgap APIs.
#if defined(GAP_CallbackFunc)
typedef GAP_CallbackFunc SYSGAP_CallbackFunc;
#else
typedef void (*SYSGAP_CallbackFunc)(void);
#endif

static inline void SYSGAP_Initialize(
    int argc,
    char ** argv,
    SYSGAP_CallbackFunc markBagsCallback,
    SYSGAP_CallbackFunc errorCallback,
    int handleSignals) {
#if defined(GAP_Enter)
    GAP_Initialize(argc, argv, markBagsCallback, errorCallback, handleSignals);
#else
    (void)handleSignals;
    GAP_Initialize(argc, argv, 0, markBagsCallback, errorCallback);
#endif
}

#if defined(GAP_Enter)
static inline int SYSGAP_Enter() {
    return GAP_Enter();
}

static inline void SYSGAP_Leave() {
    GAP_Leave();
}
#endif

#if defined(GAP_KERNEL_API_VERSION) && GAP_KERNEL_API_VERSION >= 8000
static TypOutputFile SYSGAP_OUTPUT_STREAM = { 0 };
#endif

static inline UInt SYSGAP_OpenOutputStream(Obj stream) {
#if defined(GAP_KERNEL_API_VERSION) && GAP_KERNEL_API_VERSION >= 8000
    return OpenOutputStream(&SYSGAP_OUTPUT_STREAM, stream);
#else
    return OpenOutputStream(stream);
#endif
}

static inline UInt SYSGAP_CloseOutput(void) {
#if defined(GAP_KERNEL_API_VERSION) && GAP_KERNEL_API_VERSION >= 8000
    return CloseOutput(&SYSGAP_OUTPUT_STREAM);
#else
    return CloseOutput();
#endif
}

static inline Obj SYSGAP_CallFunc2Args(Obj func, Obj a1, Obj a2) {
#if defined(GAP_Enter)
    Obj args[2] = { a1, a2 };
    return GAP_CallFuncArray(func, 2, args);
#else
    return CALL_2ARGS(func, a1, a2);
#endif
}

static inline void SYSGAP_MarkBag(Obj obj) {
#if defined(GAP_KERNEL_API_VERSION) && GAP_KERNEL_API_VERSION >= 8000
    GAP_MarkBag(obj);
#else
    MarkBag(obj);
#endif
}
");
}

// --- Shims ---
/// The definition of the type of callbacks.
pub const CALLBACK_TYPE_SHIM: &'static str = "#if defined(GAP_CallbackFunc)
typedef GAP_CallbackFunc SYSGAP_CallbackFunc;
#else
typedef void (*SYSGAP_CallbackFunc)(void);
#endif
";

/// The definition of `SYSGAP_Initialize`.
pub const INITIALIZE_SHIM: &'static str = "static inline void SYSGAP_Initialize(
    int argc,
    char ** argv,
    SYSGAP_CallbackFunc markBagsCallback,
    SYSGAP_CallbackFunc errorCallback,
    int handleSignals) {
#if defined(GAP_Enter)
    GAP_Initialize(argc, argv, markBagsCallback, errorCallback, handleSignals);
#else
    (void)handleSignals;
    GAP_Initialize(argc, argv, 0, markBagsCallback, errorCallback);
#endif
}
";

/// The definition of `SYSGAP_Enter` and `SYSGAP_Leave`.
pub const ENTER_AND_LEAVE_SHIM: &'static str = "#if defined(GAP_Enter)
static inline int SYSGAP_Enter() {
    return GAP_Enter();
}

static inline void SYSGAP_Leave() {
    GAP_Leave();
}
#endif
";

/// The definition of the output stream state.
pub const OUTPUT_STREAM_SHIM: &'static str = "#if defined(GAP_KERNEL_API_VERSION) && GAP_KERNEL_API_VERSION >= 8000
static TypOutputFile SYSGAP_OUTPUT_STREAM = { 0 };
#endif
";

/// The definition of `SYSGAP_OpenOutputStream`.
pub const OPEN_OUTPUT_STREAM_SHIM: &'static str = "static inline UInt SYSGAP_OpenOutputStream(Obj stream) {
#if defined(GAP_KERNEL_API_VERSION) && GAP_KERNEL_API_VERSION >= 8000
    return OpenOutputStream(&SYSGAP_OUTPUT_STREAM, stream);
#else
    return OpenOutputStream(stream);
#endif
}
";

/// The definition of `SYSGAP_CloseOutput`.
pub const CLOSE_OUTPUT_SHIM: &'static str = "static inline UInt SYSGAP_CloseOutput(void) {
#if defined(GAP_KERNEL_API_VERSION) && GAP_KERNEL_API_VERSION >= 8000
    return CloseOutput(&SYSGAP_OUTPUT_STREAM);
#else
    return CloseOutput();
#endif
}
";

/// The definition of `SYSGAP_CallFunc2Args`.
pub const CALL_FUNCTION_SHIM: &'static str = "static inline Obj SYSGAP_CallFunc2Args(Obj func, Obj a1, Obj a2) {
#if defined(GAP_Enter)
    Obj args[2] = { a1, a2 };
    return GAP_CallFuncArray(func, 2, args);
#else
    return CALL_2ARGS(func, a1, a2);
#endif
}
";

/// The definition of `SYSGAP_MarkBag`.
pub const MARK_BAG_SHIM: &'static str = "static inline void SYSGAP_MarkBag(Obj obj) {
#if defined(GAP_KERNEL_API_VERSION) && GAP_KERNEL_API_VERSION >= 8000
    GAP_MarkBag(obj);
#else
    MarkBag(obj);
#endif
}
";

/// Whether `piece` stands in `text` at exactly one place.
pub open spec fn stands_once(text: Seq<char>, piece: Seq<char>) -> bool {
    &&& exists|at: int| #[trigger] stands_at(text, piece, at)
    &&& forall|p: int, q: int| #[trigger]
        stands_at(text, piece, p) && #[trigger] stands_at(text, piece, q) ==> p == q
}

/// The wrapper header is its top, the lines of the layout and the shims, with nothing
/// before, between or after.
pub proof fn law_header_has_three_pieces(layout: HeaderLayout)
    ensures
        ({
            let text = header_text(layout);
            let lines = match layout {
                HeaderLayout::IncludeSubdir =>
                    "#include <gap/libgap-api.h>\n#include <gap/gap_all.h>"@,
                HeaderLayout::Direct => "#include \"libgap-api.h\"\n#include \"gap_all.h\""@,
            };
            let top = HEADER_TOP@.len() as int;
            let end = top + lines.len();
            &&& text.len() == HEADER_TOP@.len() + lines.len() + HEADER_BOTTOM@.len()
            &&& stands_at(text, HEADER_TOP@, 0)
            &&& stands_at(text, lines, top)
            &&& stands_at(text, HEADER_BOTTOM@, end)
        }),
{
    let text = header_text(layout);
    let lines = header_lines(layout);
    let top = HEADER_TOP@.len() as int;
    let end = top + lines.len();
    assert(text.subrange(0, top) =~= HEADER_TOP@);
    assert(text.subrange(top, end) =~= lines);
    assert(text.subrange(end, end + HEADER_BOTTOM@.len()) =~= HEADER_BOTTOM@);
}

/// Each shim is defined exactly once in the wrapper header of either layout.
pub proof fn law_shims_defined_once(layout: HeaderLayout)
    ensures
        stands_once(header_text(layout), CALLBACK_TYPE_SHIM@),
        stands_once(header_text(layout), INITIALIZE_SHIM@),
        stands_once(header_text(layout), ENTER_AND_LEAVE_SHIM@),
        stands_once(header_text(layout), OUTPUT_STREAM_SHIM@),
        stands_once(header_text(layout), OPEN_OUTPUT_STREAM_SHIM@),
        stands_once(header_text(layout), CLOSE_OUTPUT_SHIM@),
        stands_once(header_text(layout), CALL_FUNCTION_SHIM@),
        stands_once(header_text(layout), MARK_BAG_SHIM@),
{
    lemma_no_capital_before_shims(layout);
    lemma_callback_type_once();
    lemma_once_in_header(layout, CALLBACK_TYPE_SHIM@, 56, 60);
    lemma_initialize_once();
    lemma_once_in_header(layout, INITIALIZE_SHIM@, 20, 193);
    lemma_enter_and_leave_once();
    lemma_once_in_header(layout, ENTER_AND_LEAVE_SHIM@, 42, 581);
    lemma_output_stream_once();
    lemma_once_in_header(layout, OUTPUT_STREAM_SHIM@, 92, 729);
    lemma_open_output_stream_once();
    lemma_once_in_header(layout, OPEN_OUTPUT_STREAM_SHIM@, 20, 858);
    lemma_close_output_once();
    lemma_once_in_header(layout, CLOSE_OUTPUT_SHIM@, 20, 1098);
    lemma_call_function_once();
    lemma_once_in_header(layout, CALL_FUNCTION_SHIM@, 19, 1303);
    lemma_mark_bag_once();
    lemma_once_in_header(layout, MARK_BAG_SHIM@, 20, 1521);
}

/// Neither the top nor the lines hold a `Y`.
proof fn lemma_no_capital_before_shims(layout: HeaderLayout)
    ensures
        !HEADER_TOP@.contains('Y'),
        !header_lines(layout).contains('Y'),
{
    reveal_strlit("// Generated by gap-sys build.rs.
// We must define EXPORT_INLINE as static inline for bindgen to work with libgap.
#define EXPORT_INLINE static inline

// Include all of GAP's headers.
");
    reveal_strlit("#include <gap/libgap-api.h>\n#include <gap/gap_all.h>");
    reveal_strlit("#include \"libgap-api.h\"\n#include \"gap_all.h\"");
}

/// Where the shims hold a `Y`.
pub open spec fn capital_places(i: int) -> bool {
    ||| i == 116
    ||| i == 158
    ||| i == 213
    ||| i == 268
    ||| i == 310
    ||| i == 623
    ||| i == 686
    ||| i == 821
    ||| i == 878
    ||| i == 1015
    ||| i == 1118
    ||| i == 1239
    ||| i == 1322
    ||| i == 1541
}

// Only a literal can be revealed, so the shims are spelled again.
proof fn lemma_shims_in_place()
    ensures
        HEADER_BOTTOM@.len() == 1691,
        forall|i: int| 0 <= i < 1691 && #[trigger] HEADER_BOTTOM@[i] == 'Y' ==> capital_places(i),
        stands_at(HEADER_BOTTOM@, CALLBACK_TYPE_SHIM@, 60),
        stands_at(HEADER_BOTTOM@, INITIALIZE_SHIM@, 193),
        stands_at(HEADER_BOTTOM@, ENTER_AND_LEAVE_SHIM@, 581),
        stands_at(HEADER_BOTTOM@, OUTPUT_STREAM_SHIM@, 729),
        stands_at(HEADER_BOTTOM@, OPEN_OUTPUT_STREAM_SHIM@, 858),
        stands_at(HEADER_BOTTOM@, CLOSE_OUTPUT_SHIM@, 1098),
        stands_at(HEADER_BOTTOM@, CALL_FUNCTION_SHIM@, 1303),
        stands_at(HEADER_BOTTOM@, MARK_BAG_SHIM@, 1521),
        HEADER_BOTTOM@[122] == 'C' && HEADER_BOTTOM@[123] == 'a' && HEADER_BOTTOM@[126] == 'b' && HEADER_BOTTOM@[134] == ';' && HEADER_BOTTOM@[135] == '\n',
        HEADER_BOTTOM@[164] == 'C' && HEADER_BOTTOM@[165] == 'a' && HEADER_BOTTOM@[168] == 'b' && HEADER_BOTTOM@[176] == ')' && HEADER_BOTTOM@[177] == '(',
        HEADER_BOTTOM@[219] == 'I' && HEADER_BOTTOM@[220] == 'n' && HEADER_BOTTOM@[223] == 'i' && HEADER_BOTTOM@[231] == ' ' && HEADER_BOTTOM@[232] == ' ',
        HEADER_BOTTOM@[274] == 'C' && HEADER_BOTTOM@[275] == 'a' && HEADER_BOTTOM@[278] == 'b' && HEADER_BOTTOM@[286] == ' ' && HEADER_BOTTOM@[287] == 'm',
        HEADER_BOTTOM@[316] == 'C' && HEADER_BOTTOM@[317] == 'a' && HEADER_BOTTOM@[320] == 'b' && HEADER_BOTTOM@[328] == ' ' && HEADER_BOTTOM@[329] == 'e',
        HEADER_BOTTOM@[629] == 'E' && HEADER_BOTTOM@[630] == 'n' && HEADER_BOTTOM@[633] == 'r' && HEADER_BOTTOM@[641] == ' ' && HEADER_BOTTOM@[642] == ' ',
        HEADER_BOTTOM@[692] == 'L' && HEADER_BOTTOM@[693] == 'e' && HEADER_BOTTOM@[696] == 'e' && HEADER_BOTTOM@[704] == ' ' && HEADER_BOTTOM@[705] == ' ',
        HEADER_BOTTOM@[827] == 'O' && HEADER_BOTTOM@[828] == 'U' && HEADER_BOTTOM@[831] == 'U' && HEADER_BOTTOM@[839] == 'M' && HEADER_BOTTOM@[840] == ' ',
        HEADER_BOTTOM@[884] == 'O' && HEADER_BOTTOM@[885] == 'p' && HEADER_BOTTOM@[888] == 'O' && HEADER_BOTTOM@[896] == 'r' && HEADER_BOTTOM@[897] == 'e',
        HEADER_BOTTOM@[1021] == 'O' && HEADER_BOTTOM@[1022] == 'U' && HEADER_BOTTOM@[1025] == 'U' && HEADER_BOTTOM@[1033] == 'M' && HEADER_BOTTOM@[1034] == ',',
        HEADER_BOTTOM@[1124] == 'C' && HEADER_BOTTOM@[1125] == 'l' && HEADER_BOTTOM@[1128] == 'e' && HEADER_BOTTOM@[1136] == 'v' && HEADER_BOTTOM@[1137] == 'o',
        HEADER_BOTTOM@[1245] == 'O' && HEADER_BOTTOM@[1246] == 'U' && HEADER_BOTTOM@[1249] == 'U' && HEADER_BOTTOM@[1257] == 'M' && HEADER_BOTTOM@[1258] == ')',
        HEADER_BOTTOM@[1328] == 'C' && HEADER_BOTTOM@[1329] == 'a' && HEADER_BOTTOM@[1332] == 'F' && HEADER_BOTTOM@[1340] == 's' && HEADER_BOTTOM@[1341] == '(',
        HEADER_BOTTOM@[1547] == 'M' && HEADER_BOTTOM@[1548] == 'a' && HEADER_BOTTOM@[1551] == 'B' && HEADER_BOTTOM@[1559] == 'o' && HEADER_BOTTOM@[1560] == 'b',
{
    reveal_strlit("

// Wrapper around macros and version-varying libgap APIs.
#if defined(GAP_CallbackFunc)
typedef GAP_CallbackFunc SYSGAP_CallbackFunc;
#else
typedef void (*SYSGAP_CallbackFunc)(void);
#endif

static inline void SYSGAP_Initialize(
    int argc,
    char ** argv,
    SYSGAP_CallbackFunc markBagsCallback,
    SYSGAP_CallbackFunc errorCallback,
    int handleSignals) {
#if defined(GAP_Enter)
    GAP_Initialize(argc, argv, markBagsCallback, errorCallback, handleSignals);
#else
    (void)handleSignals;
    GAP_Initialize(argc, argv, 0, markBagsCallback, errorCallback);
#endif
}

#if defined(GAP_Enter)
static inline int SYSGAP_Enter() {
    return GAP_Enter();
}

static inline void SYSGAP_Leave() {
    GAP_Leave();
}
#endif

#if defined(GAP_KERNEL_API_VERSION) && GAP_KERNEL_API_VERSION >= 8000
static TypOutputFile SYSGAP_OUTPUT_STREAM = { 0 };
#endif

static inline UInt SYSGAP_OpenOutputStream(Obj stream) {
#if defined(GAP_KERNEL_API_VERSION) && GAP_KERNEL_API_VERSION >= 8000
    return OpenOutputStream(&SYSGAP_OUTPUT_STREAM, stream);
#else
    return OpenOutputStream(stream);
#endif
}

static inline UInt SYSGAP_CloseOutput(void) {
#if defined(GAP_KERNEL_API_VERSION) && GAP_KERNEL_API_VERSION >= 8000
    return CloseOutput(&SYSGAP_OUTPUT_STREAM);
#else
    return CloseOutput();
#endif
}

static inline Obj SYSGAP_CallFunc2Args(Obj func, Obj a1, Obj a2) {
#if defined(GAP_Enter)
    Obj args[2] = { a1, a2 };
    return GAP_CallFuncArray(func, 2, args);
#else
    return CALL_2ARGS(func, a1, a2);
#endif
}

static inline void SYSGAP_MarkBag(Obj obj) {
#if defined(GAP_KERNEL_API_VERSION) && GAP_KERNEL_API_VERSION >= 8000
    GAP_MarkBag(obj);
#else
    MarkBag(obj);
#endif
}
");
    reveal_strlit("#if defined(GAP_CallbackFunc)
typedef GAP_CallbackFunc SYSGAP_CallbackFunc;
#else
typedef void (*SYSGAP_CallbackFunc)(void);
#endif
");
    reveal_strlit("static inline void SYSGAP_Initialize(
    int argc,
    char ** argv,
    SYSGAP_CallbackFunc markBagsCallback,
    SYSGAP_CallbackFunc errorCallback,
    int handleSignals) {
#if defined(GAP_Enter)
    GAP_Initialize(argc, argv, markBagsCallback, errorCallback, handleSignals);
#else
    (void)handleSignals;
    GAP_Initialize(argc, argv, 0, markBagsCallback, errorCallback);
#endif
}
");
    reveal_strlit("#if defined(GAP_Enter)
static inline int SYSGAP_Enter() {
    return GAP_Enter();
}

static inline void SYSGAP_Leave() {
    GAP_Leave();
}
#endif
");
    reveal_strlit("#if defined(GAP_KERNEL_API_VERSION) && GAP_KERNEL_API_VERSION >= 8000
static TypOutputFile SYSGAP_OUTPUT_STREAM = { 0 };
#endif
");
    reveal_strlit("static inline UInt SYSGAP_OpenOutputStream(Obj stream) {
#if defined(GAP_KERNEL_API_VERSION) && GAP_KERNEL_API_VERSION >= 8000
    return OpenOutputStream(&SYSGAP_OUTPUT_STREAM, stream);
#else
    return OpenOutputStream(stream);
#endif
}
");
    reveal_strlit("static inline UInt SYSGAP_CloseOutput(void) {
#if defined(GAP_KERNEL_API_VERSION) && GAP_KERNEL_API_VERSION >= 8000
    return CloseOutput(&SYSGAP_OUTPUT_STREAM);
#else
    return CloseOutput();
#endif
}
");
    reveal_strlit("static inline Obj SYSGAP_CallFunc2Args(Obj func, Obj a1, Obj a2) {
#if defined(GAP_Enter)
    Obj args[2] = { a1, a2 };
    return GAP_CallFuncArray(func, 2, args);
#else
    return CALL_2ARGS(func, a1, a2);
#endif
}
");
    reveal_strlit("static inline void SYSGAP_MarkBag(Obj obj) {
#if defined(GAP_KERNEL_API_VERSION) && GAP_KERNEL_API_VERSION >= 8000
    GAP_MarkBag(obj);
#else
    MarkBag(obj);
#endif
}
");
    let bottom = HEADER_BOTTOM@;
    assert(bottom.subrange(60, 192) =~= CALLBACK_TYPE_SHIM@);
    assert(bottom.subrange(193, 580) =~= INITIALIZE_SHIM@);
    assert(bottom.subrange(581, 728) =~= ENTER_AND_LEAVE_SHIM@);
    assert(bottom.subrange(729, 857) =~= OUTPUT_STREAM_SHIM@);
    assert(bottom.subrange(858, 1097) =~= OPEN_OUTPUT_STREAM_SHIM@);
    assert(bottom.subrange(1098, 1302) =~= CLOSE_OUTPUT_SHIM@);
    assert(bottom.subrange(1303, 1520) =~= CALL_FUNCTION_SHIM@);
    assert(bottom.subrange(1521, 1691) =~= MARK_BAG_SHIM@);
}

/// A piece that stands once among the shims stands once in the header.
proof fn lemma_once_in_header(layout: HeaderLayout, piece: Seq<char>, o: int, a: int)
    requires
        !HEADER_TOP@.contains('Y'),
        !header_lines(layout).contains('Y'),
        0 <= o < piece.len(),
        piece[o] == 'Y',
        o <= 116,
        stands_at(HEADER_BOTTOM@, piece, a),
        forall|p: int| #[trigger] stands_at(HEADER_BOTTOM@, piece, p) ==> p == a,
    ensures
        stands_once(header_text(layout), piece),
{
    let text = header_text(layout);
    let lines = header_lines(layout);
    let bottom = HEADER_BOTTOM@;
    let base = HEADER_TOP@.len() + lines.len();
    lemma_shims_in_place();
    assert(text.subrange(base + a, base + a + piece.len()) =~= bottom.subrange(a, a + piece.len()));
    assert(stands_at(text, piece, base + a));
    assert forall|p: int| #[trigger] stands_at(text, piece, p) implies p == base + a by {
        let found = text.subrange(p, p + piece.len());
        assert(found[o] == text[p + o]);
        if p + o < HEADER_TOP@.len() {
            assert(HEADER_TOP@[p + o] == 'Y');
        } else if p + o < base {
            assert(lines[p + o - HEADER_TOP@.len()] == 'Y');
        } else {
            assert(bottom[p + o - base] == 'Y');
            assert(capital_places(p + o - base));
            assert(bottom.subrange(p - base, p - base + piece.len()) =~= found);
            assert(stands_at(bottom, piece, p - base));
        }
    }
}

proof fn lemma_callback_type_once()
    ensures
        CALLBACK_TYPE_SHIM@.len() > 56,
        CALLBACK_TYPE_SHIM@[56] == 'Y',
        stands_at(HEADER_BOTTOM@, CALLBACK_TYPE_SHIM@, 60),
        forall|p: int| #[trigger] stands_at(HEADER_BOTTOM@, CALLBACK_TYPE_SHIM@, p) ==> p == 60,
{
    reveal_strlit("#if defined(GAP_CallbackFunc)
typedef GAP_CallbackFunc SYSGAP_CallbackFunc;
#else
typedef void (*SYSGAP_CallbackFunc)(void);
#endif
");
    let piece = CALLBACK_TYPE_SHIM@;
    let bottom = HEADER_BOTTOM@;
    lemma_shims_in_place();
    assert forall|p: int| #[trigger] stands_at(bottom, piece, p) implies p == 60 by {
        let found = bottom.subrange(p, p + piece.len());
        assert(found[56] == bottom[p + 56]);
        assert(capital_places(p + 56));
        assert(found[62] == bottom[p + 62]);
        assert(found[63] == bottom[p + 63]);
        assert(found[66] == bottom[p + 66]);
        assert(found[74] == bottom[p + 74]);
    }
}

proof fn lemma_initialize_once()
    ensures
        INITIALIZE_SHIM@.len() > 20,
        INITIALIZE_SHIM@[20] == 'Y',
        stands_at(HEADER_BOTTOM@, INITIALIZE_SHIM@, 193),
        forall|p: int| #[trigger] stands_at(HEADER_BOTTOM@, INITIALIZE_SHIM@, p) ==> p == 193,
{
    reveal_strlit("static inline void SYSGAP_Initialize(
    int argc,
    char ** argv,
    SYSGAP_CallbackFunc markBagsCallback,
    SYSGAP_CallbackFunc errorCallback,
    int handleSignals) {
#if defined(GAP_Enter)
    GAP_Initialize(argc, argv, markBagsCallback, errorCallback, handleSignals);
#else
    (void)handleSignals;
    GAP_Initialize(argc, argv, 0, markBagsCallback, errorCallback);
#endif
}
");
    let piece = INITIALIZE_SHIM@;
    let bottom = HEADER_BOTTOM@;
    lemma_shims_in_place();
    assert forall|p: int| #[trigger] stands_at(bottom, piece, p) implies p == 193 by {
        let found = bottom.subrange(p, p + piece.len());
        assert(found[20] == bottom[p + 20]);
        assert(capital_places(p + 20));
        assert(found[26] == bottom[p + 26]);
        assert(found[27] == bottom[p + 27]);
        assert(found[30] == bottom[p + 30]);
    }
}

proof fn lemma_enter_and_leave_once()
    ensures
        ENTER_AND_LEAVE_SHIM@.len() > 42,
        ENTER_AND_LEAVE_SHIM@[42] == 'Y',
        stands_at(HEADER_BOTTOM@, ENTER_AND_LEAVE_SHIM@, 581),
        forall|p: int| #[trigger] stands_at(HEADER_BOTTOM@, ENTER_AND_LEAVE_SHIM@, p) ==> p == 581,
{
    reveal_strlit("#if defined(GAP_Enter)
static inline int SYSGAP_Enter() {
    return GAP_Enter();
}

static inline void SYSGAP_Leave() {
    GAP_Leave();
}
#endif
");
    let piece = ENTER_AND_LEAVE_SHIM@;
    let bottom = HEADER_BOTTOM@;
    lemma_shims_in_place();
    assert forall|p: int| #[trigger] stands_at(bottom, piece, p) implies p == 581 by {
        let found = bottom.subrange(p, p + piece.len());
        assert(found[42] == bottom[p + 42]);
        assert(capital_places(p + 42));
        assert(found[48] == bottom[p + 48]);
        assert(found[49] == bottom[p + 49]);
        assert(found[52] == bottom[p + 52]);
    }
}

proof fn lemma_output_stream_once()
    ensures
        OUTPUT_STREAM_SHIM@.len() > 92,
        OUTPUT_STREAM_SHIM@[92] == 'Y',
        stands_at(HEADER_BOTTOM@, OUTPUT_STREAM_SHIM@, 729),
        forall|p: int| #[trigger] stands_at(HEADER_BOTTOM@, OUTPUT_STREAM_SHIM@, p) ==> p == 729,
{
    reveal_strlit("#if defined(GAP_KERNEL_API_VERSION) && GAP_KERNEL_API_VERSION >= 8000
static TypOutputFile SYSGAP_OUTPUT_STREAM = { 0 };
#endif
");
    let piece = OUTPUT_STREAM_SHIM@;
    let bottom = HEADER_BOTTOM@;
    lemma_shims_in_place();
    assert forall|p: int| #[trigger] stands_at(bottom, piece, p) implies p == 729 by {
        let found = bottom.subrange(p, p + piece.len());
        assert(found[92] == bottom[p + 92]);
        assert(capital_places(p + 92));
        assert(found[98] == bottom[p + 98]);
        assert(found[99] == bottom[p + 99]);
        assert(found[102] == bottom[p + 102]);
        assert(found[111] == bottom[p + 111]);
    }
}

proof fn lemma_open_output_stream_once()
    ensures
        OPEN_OUTPUT_STREAM_SHIM@.len() > 20,
        OPEN_OUTPUT_STREAM_SHIM@[20] == 'Y',
        stands_at(HEADER_BOTTOM@, OPEN_OUTPUT_STREAM_SHIM@, 858),
        forall|p: int| #[trigger] stands_at(HEADER_BOTTOM@, OPEN_OUTPUT_STREAM_SHIM@, p) ==> p == 858,
{
    reveal_strlit("static inline UInt SYSGAP_OpenOutputStream(Obj stream) {
#if defined(GAP_KERNEL_API_VERSION) && GAP_KERNEL_API_VERSION >= 8000
    return OpenOutputStream(&SYSGAP_OUTPUT_STREAM, stream);
#else
    return OpenOutputStream(stream);
#endif
}
");
    let piece = OPEN_OUTPUT_STREAM_SHIM@;
    let bottom = HEADER_BOTTOM@;
    lemma_shims_in_place();
    assert forall|p: int| #[trigger] stands_at(bottom, piece, p) implies p == 858 by {
        let found = bottom.subrange(p, p + piece.len());
        assert(found[20] == bottom[p + 20]);
        assert(capital_places(p + 20));
        assert(found[26] == bottom[p + 26]);
        assert(found[27] == bottom[p + 27]);
        assert(found[30] == bottom[p + 30]);
    }
}

proof fn lemma_close_output_once()
    ensures
        CLOSE_OUTPUT_SHIM@.len() > 20,
        CLOSE_OUTPUT_SHIM@[20] == 'Y',
        stands_at(HEADER_BOTTOM@, CLOSE_OUTPUT_SHIM@, 1098),
        forall|p: int| #[trigger] stands_at(HEADER_BOTTOM@, CLOSE_OUTPUT_SHIM@, p) ==> p == 1098,
{
    reveal_strlit("static inline UInt SYSGAP_CloseOutput(void) {
#if defined(GAP_KERNEL_API_VERSION) && GAP_KERNEL_API_VERSION >= 8000
    return CloseOutput(&SYSGAP_OUTPUT_STREAM);
#else
    return CloseOutput();
#endif
}
");
    let piece = CLOSE_OUTPUT_SHIM@;
    let bottom = HEADER_BOTTOM@;
    lemma_shims_in_place();
    assert forall|p: int| #[trigger] stands_at(bottom, piece, p) implies p == 1098 by {
        let found = bottom.subrange(p, p + piece.len());
        assert(found[20] == bottom[p + 20]);
        assert(capital_places(p + 20));
        assert(found[26] == bottom[p + 26]);
        assert(found[27] == bottom[p + 27]);
        assert(found[30] == bottom[p + 30]);
    }
}

proof fn lemma_call_function_once()
    ensures
        CALL_FUNCTION_SHIM@.len() > 19,
        CALL_FUNCTION_SHIM@[19] == 'Y',
        stands_at(HEADER_BOTTOM@, CALL_FUNCTION_SHIM@, 1303),
        forall|p: int| #[trigger] stands_at(HEADER_BOTTOM@, CALL_FUNCTION_SHIM@, p) ==> p == 1303,
{
    reveal_strlit("static inline Obj SYSGAP_CallFunc2Args(Obj func, Obj a1, Obj a2) {
#if defined(GAP_Enter)
    Obj args[2] = { a1, a2 };
    return GAP_CallFuncArray(func, 2, args);
#else
    return CALL_2ARGS(func, a1, a2);
#endif
}
");
    let piece = CALL_FUNCTION_SHIM@;
    let bottom = HEADER_BOTTOM@;
    lemma_shims_in_place();
    assert forall|p: int| #[trigger] stands_at(bottom, piece, p) implies p == 1303 by {
        let found = bottom.subrange(p, p + piece.len());
        assert(found[19] == bottom[p + 19]);
        assert(capital_places(p + 19));
        assert(found[25] == bottom[p + 25]);
        assert(found[26] == bottom[p + 26]);
        assert(found[29] == bottom[p + 29]);
    }
}

proof fn lemma_mark_bag_once()
    ensures
        MARK_BAG_SHIM@.len() > 20,
        MARK_BAG_SHIM@[20] == 'Y',
        stands_at(HEADER_BOTTOM@, MARK_BAG_SHIM@, 1521),
        forall|p: int| #[trigger] stands_at(HEADER_BOTTOM@, MARK_BAG_SHIM@, p) ==> p == 1521,
{
    reveal_strlit("static inline void SYSGAP_MarkBag(Obj obj) {
#if defined(GAP_KERNEL_API_VERSION) && GAP_KERNEL_API_VERSION >= 8000
    GAP_MarkBag(obj);
#else
    MarkBag(obj);
#endif
}
");
    let piece = MARK_BAG_SHIM@;
    let bottom = HEADER_BOTTOM@;
    lemma_shims_in_place();
    assert forall|p: int| #[trigger] stands_at(bottom, piece, p) implies p == 1521 by {
        let found = bottom.subrange(p, p + piece.len());
        assert(found[20] == bottom[p + 20]);
        assert(capital_places(p + 20));
        assert(found[26] == bottom[p + 26]);
        assert(found[27] == bottom[p + 27]);
        assert(found[30] == bottom[p + 30]);
    }
}

}
