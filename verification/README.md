# gap_sys

Bindings to GAP - Groups, Algorithms, Programming - a System for Computational Discrete
Algebra. The library in `src/` is verified with Verus; `app/` is the ordinary Rust around
it, which talks to libgap, to the file system and to processes.

## Layout

- `src/gap_config.rs` decides where GAP is: its root, its header directories and its
  library directories. `src/discovery_spec.rs` states what is decided, and
  `src/discovery_laws.rs` what follows from it.
- `src/survey.rs` lists the paths at which those decisions look.
- `src/runtime_roots.rs` makes the root list with which GAP is started.
- `src/gap.rs` and `src/gap/` are the interpreter: starting it, evaluating text, lists,
  calls, permutations. `src/gap/laws.rs` and `src/gap/memory_laws.rs` hold what is true
  over several operations.
- `src/roots.rs` is the table of objects that survive garbage collections, and
  `src/session.rs` the conversation with libgap. `src/kernel.rs` names the calls.
- `src/global.rs` is the interpreter that a program shares.
- `src/path.rs`, `src/tree.rs` and `src/text.rs` are paths, what was seen of the file
  system, and text.
- `app/` holds libgap as a kernel, the real file system and commands, the process-global
  runtime, and the build step.

What libgap answers is not supposed to have any meaning. The kernel can be reached through
a session alone, which records every call: each of its methods says that the kernel is
what that one call made of it. So each contract says which calls an operation makes and
that it makes no others, with which arguments and with what rooted, and what the operation
returns for whatever comes back.

## GAP discovery

By default GAP is asked with `gap --print-gaproot`, using `gap` from `PATH`; for older GAP
versions that do not support that option, `GAPInfo.RootPaths` is queried for a root
containing `lib/init.g`. Header and library directories are then inferred from that root.

Discovery can be overridden with environment variables:

- `GAP_SYS_ROOT`: GAP root directory containing `lib/init.g`
- `GAP_SYS_GAP_BIN`: GAP executable used for `--print-gaproot`
- `GAP_SYS_INCLUDE_DIRS`: path-list of header directories
- `GAP_SYS_LIB_DIRS`: path-list of directories containing `libgap`

The path-lists use the platform's separator, which the library takes as part of the
settings: with `:` entries are taken as they are, with `;` they can be in double quotes.
Paths are those of POSIX systems.

At runtime `GAP_SYS_ROOT` is used if it is set, otherwise the GAP root detected at build
time.
