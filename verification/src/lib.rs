//! Resolution of named clinical-code groups over a hierarchical coding
//! nomenclature (such as ICD-10).
//!
//! A serialized description of the nomenclature is parsed once into a frozen
//! [`ClinicalCodeTree`]; group tags attached to categories or individual codes
//! select subtrees, and resolving a group walks the tree, interns every
//! selected code into a caller-supplied [`ClinicalCodeStore`], and returns
//! cheap references in ascending index order.

pub mod lex;
pub mod index;
pub mod tree_model;
pub mod clinical_code;
pub mod clinical_code_tree;
pub mod synth;

pub use crate::index::Index;
pub use crate::index::IndexError;
pub use crate::clinical_code::ClinicalCode;
pub use crate::clinical_code::ClinicalCodeRef;
pub use crate::clinical_code::ClinicalCodeStore;
pub use crate::clinical_code::CodeError;
pub use crate::clinical_code_tree::ClinicalCodeTree;
pub use crate::tree_model::ParseError;
