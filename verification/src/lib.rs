//! Verified core of a clipboard-history manager: the history store, capture
//! classification, search, screenshot tracking and the small decisions the
//! desktop shell makes.

pub mod capture;
pub mod clock;
pub mod glyph;
pub mod hashing;
pub mod history;
pub mod like;
pub mod screenshots;
pub mod shell;
pub mod storage;
pub mod text;
pub mod thumbs;
