//! Bindings to GAP - Groups, Algorithms, Programming - with a verified convenience layer.
//!
//! The library initializes GAP, evaluates snippets, calls GAP functions, converts a few
//! primitive values, and keeps selected GAP objects alive across garbage collections.
//! It also decides where a GAP installation is, from settings, from what was seen of the
//! file system and from what GAP itself printed.
//!
//! GAP owns every object. A [`GapValue`] owns a root, so it can safely survive later GAP
//! calls. [`GapRef`] is the explicit low-level, unrooted handle for code that can prove
//! it will not cross a GAP allocation.
//!
//! libgap stands behind [`kernel::Kernel`], of which nothing is supposed, and is reached
//! through a [`session::Session`], which records every call. Contracts say which calls an
//! operation makes, in order and with no others, what is rooted during each, and what the
//! operation returns for every answer.

pub mod discovery_laws;
pub mod discovery_spec;
pub mod error;
pub mod function_laws;
pub mod gap;
pub mod gap_config;
pub mod global;
pub mod handle;
pub mod header;
pub mod kernel;
pub mod path;
pub mod path_laws;
pub mod query_laws;
pub mod root_list_laws;
pub mod roots;
pub mod runtime_roots;
pub mod session;
pub mod survey;
pub mod text;
pub mod text_laws;
pub mod tree;

pub use crate::error::GapError;
pub use crate::gap::Gap;
pub use crate::global::{
    eval, gap_eval, global, init_global, with_gap, GapBuilder, GlobalGap, GlobalGapGuard,
};
pub use crate::handle::{GapElement, GapRef};
pub use crate::roots::GapValue;
