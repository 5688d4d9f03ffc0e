//! The EDB record database and EDT page table formats, with their stream cipher.

pub mod bytes;
pub mod crypto;
pub mod error;
pub mod header;

pub use crypto::{crypt_in_place, password_verifier};
pub use error::Error;
pub use header::{
    FileHeader, FileKind, MAGIC_DATABASE, MAGIC_ENCRYPTED_DATABASE, MAGIC_ENCRYPTED_TABLE,
    MAGIC_TABLE, VERSION_1,
};
pub mod database;
pub use database::{
    Database, DatabaseHeader, FieldDescriptor, DATABASE_HEADER_LEN, FIELD_DESCRIPTOR_LEN,
};
pub mod table;
pub mod free_list;
pub use table::{
    Table, TableHeader, TablePage, TABLE_PAGE_HEADER_LEN, TABLE_PAGE_LEN, TABLE_PAGE_PAYLOAD_LEN,
};
