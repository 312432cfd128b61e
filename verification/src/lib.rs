//! A configurable nested-segment scanner: named open/close tag rules are
//! matched over a text in one pass, producing an ordered tree of matched
//! regions, plain contents and white-space, with flatten/inflate
//! round-tripping and identity-path references into the tree.

pub mod flatten;
pub mod ini;
pub mod matcher;
pub mod parser;
pub mod segment;
pub mod segment_ref;
pub mod text;

pub use ini::IniCategory;
pub use ini::IniCore;
pub use ini::IniError;
pub use ini::IniVariable;
pub use matcher::AnchoredRegex;
pub use matcher::ConfigError;
pub use matcher::MatchFunction;
pub use matcher::MatchMethod;
pub use matcher::SegmentIdentification;
pub use parser::InnerNestedCodeParser;
pub use parser::NestedCodeParser;
pub use parser::ParseError;
pub use parser::ROOT_NAME;
pub use segment::NestedSegment;
pub use segment::SegmentIdSource;
pub use segment::NestedSegmentCode;
pub use segment::SegView;
pub use segment::CONTENTS_NAME;
pub use segment::WHITESPACE_NAME;
pub use segment_ref::NestedSegmentIterator;
pub use segment_ref::NestedSegmentRef;
