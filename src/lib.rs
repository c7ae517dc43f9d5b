//! Layout-driven project scaffolding.
//!
//! A layout document lists projects, their module trees and their files. This
//! library checks a layout (`validator`), lists the paths it claims (`collector`),
//! plans the files and directories that realize it without ever overwriting code
//! (`generation`), and edits the document's text line by line so that untouched
//! lines stay byte for byte (`editor`). `edit_proofs` shows that edits keep every
//! untouched line, that additions are idempotent, and that removing what was just
//! added gives the text back.

pub mod text;
pub mod model;
pub mod validator;
pub mod collector;
pub mod editor;
pub mod scanner;
pub mod formatter;
pub mod generation;
pub mod commands;
pub mod edit_proofs;
