//! What the operations are for.
//!
//! The contracts say what each function returns. The laws gathered here say what
//! that is worth, in terms of what went in: which entries a seal counts, which
//! clearings are accepted, which balances a closing flattens. They speak of
//! postings, dates, accounts and amounts, and of nothing in between.

pub mod accounts;
pub mod calls;
pub mod clearing;
pub mod closing;
pub mod encoding;
pub mod equality;
pub mod fields;
pub mod literals;
pub mod periods;
pub mod reading;
pub mod recording;
pub mod sealing;
pub mod splitting;
pub mod storing;
pub mod validation;
pub mod values;
