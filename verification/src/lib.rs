//! A small collection of verified text utilities built around a shared
//! message mailbox: a FIFO store of text messages driven by a line-based
//! request protocol, plus line-searching and report-summarising helpers.

pub mod grep;
pub mod mailbox;
pub mod report;
pub mod restaurant;
pub mod text;
