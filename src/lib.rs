//! A study ledger: counts how often each kanji was written and maps each
//! occurrence to a page and row of a paper notebook.

pub mod input;
pub mod laws;
pub mod ledger;
pub mod notebook;
