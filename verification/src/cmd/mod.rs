//! The subcommands: what each computes from the content it is given.

pub mod append;
pub mod copy;
pub mod count;
pub mod create;
pub mod describe;
pub mod doctor;
pub mod doctor_paths;
pub mod edit;
pub mod find;
pub mod head;
pub mod move_block;
pub mod read;
pub mod readex;
pub mod render;
pub mod replace;
pub mod setup;
pub mod tail;
pub mod validate;
pub mod write;
