pub mod strutil;
pub mod timepoint;
pub mod label;
pub mod listview;
pub mod timesheet;
pub mod grouping;
