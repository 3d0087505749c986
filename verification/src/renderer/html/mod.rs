pub mod attribute;
pub mod markup;
pub mod parser;
pub mod token;
pub mod written_tag;
