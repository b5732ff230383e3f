#![verifier::loop_isolation(false)]

pub mod builder;
pub mod codec;
pub mod delete;
pub mod error;
pub mod extract;
pub mod laws;
pub mod locate;
pub mod merge;
pub mod names;
pub mod object;
pub mod ranges;
pub mod remap;
pub mod reorder;
pub mod rotate;
pub mod store;
pub mod string_util;

pub use error::PdfError;
pub use object::Dict;
pub use object::ObjId;
pub use object::Obj;
pub use store::Store;
