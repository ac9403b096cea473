//! Ideographic description sequences: operators, decomposition trees, the
//! text grammar, the decomposition table and the matching predicates.

pub mod engine;
pub mod foundation;
pub mod grammar;
pub mod laws;
pub mod loader;
pub mod matching;
pub mod operator;
pub mod order;
pub mod parser;
pub mod table;
pub mod tag;
pub mod text;
pub mod tree;

pub use self::loader::RecordError;
pub use self::operator::{Direction, IDC};
pub use self::parser::{parse, parse_tagged, parser_ids, parser_tagged_ids, ParseError};
pub use self::table::IDSTable;
pub use self::tag::{Tag, TaggedIDS};
pub use self::tree::IDS;
