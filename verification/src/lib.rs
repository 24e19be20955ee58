//! Reconciles the record identifiers of two versions of a prefab document.
//!
//! A prefab document is a header followed by record blocks, each introduced by
//! a `---` line that carries the record's numeric identifier. Saving a document
//! again may renumber its records. Given the document as it was and as it is
//! now, this library pairs the records of both by what they describe, gives each
//! record of the newer document the identifier it had before, and rewrites every
//! reference to a renumbered record accordingly.
//!
//! All texts are modelled as sequences of characters (`Seq<char>`), which is the
//! view of `str` and `String`.
//!
//! - `split` cuts a document into its header and its blocks,
//! - `block` reads what a block describes,
//! - `document` reads and writes whole documents,
//! - `matcher` pairs the blocks of two documents and builds the identifier
//!   mapping,
//! - `rewrite` rewrites the numbers of a text through that mapping,
//! - `reconcile` puts these together,
//! - `round_trip` shows that a rewritten block carries its new identifier,
//! - `text` and `number` hold the operations on characters and decimal
//!   numbers that the others rest on.

pub mod block;
pub mod document;
pub mod error;
pub mod matcher;
pub mod number;
pub mod reconcile;
pub mod rewrite;
pub mod round_trip;
pub mod split;
pub mod text;

pub use block::collect_game_objects;
pub use block::find_game_object;
pub use block::parse_block;
pub use block::Block;
pub use block::BlockDescriptor;
pub use document::dump_yaml;
pub use document::parse_yaml;
pub use document::PrefabFile;
pub use error::Error;
pub use matcher::match_blocks;
pub use reconcile::reconcile;
pub use reconcile::reconcile_block;
pub use rewrite::replace_ids;
pub use split::split_yaml;
pub use split::SplitYaml;
