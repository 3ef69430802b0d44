//! Model of a directory of Terraform configuration: which resources and
//! module calls each file declares, how one selected file, module or resource
//! resolves to the resources it denotes, and the searchable picker that
//! offers those choices.
//!
//! The library reads no file and touches no terminal. It is handed the files
//! of a directory as texts and the keystrokes of the user one by one, and says
//! what to show, what to do to the terminal, and which resources to address.

pub mod text;
pub mod order;
pub mod types;
pub mod scanner;
pub mod project;
pub mod selector;
pub mod session;
pub mod selection;
pub mod executor;
