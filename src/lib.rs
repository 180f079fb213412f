pub mod args_parser;
pub mod atlas_maker;
pub mod flags_parser;
pub mod token;
