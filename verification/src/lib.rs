//! Workspace analytics: what makes a set of log tables traceable, and the
//! queries, timelines and summaries built on that.

pub mod az;
pub mod batch;
pub mod cache;
pub mod clipboard;
pub mod clock;
pub mod discover;
pub mod dsu;
pub mod exceptions;
pub mod exceptions_view;
pub mod history;
pub mod home;
pub mod instances;
pub mod json;
pub mod keys;
pub mod lanes;
pub mod linking;
pub mod loganalytics;
pub mod logs;
pub mod logs_view;
pub mod order;
pub mod schema;
pub mod signals;
pub mod signals_view;
pub mod text;
pub mod trace;
pub mod update_check;
pub mod welcome;
