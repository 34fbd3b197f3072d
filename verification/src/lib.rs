//! The logic of the modelwrite browser workbench: recognising a dropped model file, unpacking
//! a Cameo container, deriving a project name, composing the plain-language summaries, and
//! the small text encodings every page relies on.

pub mod text;
pub mod inflate;
pub mod zip;
pub mod detect;
pub mod naming;
pub mod escape;
pub mod facts;
pub mod order;
pub mod losses;
pub mod number;
pub mod form;
pub mod import;
pub mod layout;
pub mod compare;
pub mod edit;
pub mod create;
pub mod assist;
pub mod access;
pub mod proposals;
pub mod gate;
pub mod model;
pub mod analyses;
pub mod search;
pub mod diagram;
pub mod scope;
pub mod export;
pub mod sections;
pub mod composition;
pub mod impact;
pub mod tree;
pub mod labels;
pub mod kinds;
pub mod health;
pub mod branches;
pub mod onboard;
pub mod editing;
pub mod stream;
pub mod json;
pub mod allocation;
pub mod history;
