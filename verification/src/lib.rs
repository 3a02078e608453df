//! A small issue tracker: epics containing stories, each with a lifecycle
//! status, persisted as a single JSON document and navigated through a stack
//! of text pages.
//!
//! The document model and its invariants live in [`models`] and [`idmap`];
//! [`codec`] fixes the persisted format and proves its round trip;
//! [`database`] is the CRUD service over a [`store`]; [`pages`] and
//! [`navigator`] turn input lines into actions and actions into store
//! mutations and page transitions.

pub mod codec;
pub mod database;
pub mod helpers;
pub mod idmap;
pub mod models;
pub mod navigator;
pub mod pages;
pub mod store;
