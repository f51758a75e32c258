//! A decoder for compiled class containers: the header, the cross-referenced
//! constant pool with typed indices, and the interfaces, fields, methods and
//! class attributes, read either once in order or by random access, with
//! lazy walks over member and attribute records.
//!
//! Around it stand the small pieces of mod-archive analysis that consume it:
//! archive members, extensions, name indices, inheritance, recipe and code
//! counts.

pub mod assoc;
pub mod attr;
pub mod be;
pub mod buf;
pub mod error;
pub mod ext;
pub mod extract;
pub mod header;
pub mod idx;
pub mod iter;
pub mod jtype;
pub mod jvm;
pub mod layout;
pub mod loader;
pub mod pool;
pub mod read;
pub mod readseek;
pub mod sizes;
pub mod zipext;
