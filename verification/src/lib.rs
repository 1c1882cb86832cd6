//! The verified core of a SystemVerilog language server.

pub mod answer_laws;
pub mod ast;
pub mod ast_features;
pub mod chain_resolve;
pub mod code_lens;
pub mod completion;
pub mod completion_laws;
pub mod completion_score;
pub mod debug_timer;
pub mod diag_policy;
pub mod diagnostics;
pub mod document;
pub mod documents;
pub mod elaborate_service;
pub mod filelist;
pub mod format;
pub mod format_laws;
pub mod hierarchy_features;
pub mod hover_features;
pub mod hover_laws;
pub mod include_laws;
pub mod includes;
pub mod lookup_laws;
pub mod lsp;
pub mod lsp_convert;
pub mod member_features;
pub mod model;
pub mod navigation;
pub mod navigation_laws;
pub mod paths;
pub mod project;
pub mod project_laws;
pub mod request_laws;
pub mod requests;
pub mod resolution_laws;
pub mod rope;
pub mod symbols;
pub mod text;
pub mod workspace_symbols;
