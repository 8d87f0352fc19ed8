//! Discovery of software projects in a directory tree: a fixed catalog of
//! ecosystems, each recognized by characteristic manifest entries, and a scan
//! that reports the directory of each match whose artifact directory exists,
//! suppressing matches nested inside the most recently reported one.

pub mod catalog;
pub mod paths;
pub mod project;
pub mod scan;
