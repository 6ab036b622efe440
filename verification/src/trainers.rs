//! Trainers: each knows one kind of source and feeds its lines to a chain.

pub mod weechat;
