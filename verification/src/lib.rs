pub mod text;
pub mod item_type;
pub mod markdown;
pub mod metadata;
pub mod archive;
pub mod spine;
pub mod ncx;
pub mod model;
pub mod validation;
pub mod writer;
pub mod reader;
pub mod errors;
pub mod timestamp;
pub mod xml;
pub mod container;
pub mod manifest;
pub mod nav;
pub mod refines;
pub mod builder;
pub mod report;
