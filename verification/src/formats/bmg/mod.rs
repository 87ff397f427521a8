pub mod attributes;
pub mod from_json;
pub mod parser;
pub mod roundtrip;
pub mod to_json;
pub mod json_roundtrip;
