//! Scans a directory listing for JPEG images, turns the EXIF metadata of each
//! image into a row of text fields, and renders the rows as a CSV document.
//!
//! A run goes through three stages, one module each:
//!
//! - [`discovery`] picks the candidate images from the listing of a directory
//!   and puts their paths in ascending order;
//! - [`exif`] turns what one candidate holds into a row, or into the message
//!   that reports the file where its metadata cannot be read;
//! - [`report`] renders the rows as a CSV document whose first record marks
//!   the time.
//!
//! [`run`] holds what lies between the last two: the outcomes of all
//! candidates, parted into rows and failures. [`sorting`] and [`text`] hold
//! the order of paths and the handling of bytes. The library touches no file and
//! no console. Whoever drives a run lists the directory, reads the candidates,
//! writes the document and prints the failures.

pub mod discovery;
pub mod exif;
pub mod report;
pub mod run;
pub mod sorting;
pub mod text;
