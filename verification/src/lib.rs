//! Decisions behind a tool that fetches operating system images and writes them to USB sticks.
//!
//! From the bottom up: text and its pieces (`text`, `percent`, `json`, `layout`), what disks and
//! images look like (`parts`, `dev`, `scheme`, `sha256`), which images there are and which build of
//! one is the newest (`net`, `catalog`, `builtin`, `pick`, `windows`, `resolve`), downloading over
//! many connections (`plan`, `fetch`), what is said and shown (`say`, `meter`, `listing`), and what
//! the commands do (`cli`, `get`, `acquire`, `burn`, `check`, `update`, `gui`).

pub mod text;
pub mod net;
pub mod percent;
pub mod parts;
pub mod dev;
pub mod catalog;
pub mod builtin;
pub mod pick;
pub mod resolve;
pub mod windows;
pub mod scheme;
pub mod sha256;
pub mod json;
pub mod layout;
pub mod say;
pub mod meter;
pub mod plan;
pub mod fetch;
pub mod burn;
pub mod cli;
pub mod listing;
pub mod get;
pub mod check;
pub mod update;
pub mod gui;
pub mod acquire;
