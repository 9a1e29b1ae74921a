//! Record files: fixed-width binary records, in-memory seekable files, hash tables kept
//! in files, sorted buckets, replacement selection and n-way merging with tournament
//! trees.
pub mod codec;
pub mod memfile;
pub mod serialize;
pub mod record;
pub mod text;
pub mod agencia;
pub mod cliente;
pub mod replacement_sort;
pub mod chains;
pub mod hash_table;
pub mod inner_link;
pub mod tournament;
pub mod dated_cliente;
pub mod nway_merge;
pub mod buckets;
pub mod order;
