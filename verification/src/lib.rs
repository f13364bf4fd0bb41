//! Verified core of a batch HTML-to-PDF pipeline.
//!
//! The pipeline converts every `.html` file of one directory to a sibling
//! `.pdf` file through an external renderer, concatenates the produced PDFs
//! (sorted by name) into a single `merged_output.pdf` through an external
//! merge tool, and finally deletes the intermediate files.  Everything the
//! pipeline decides — which entries are conversion jobs, which conversions
//! count as successes, the order and argument list of the merge, whether
//! cleanup may run at all, and which files cleanup is allowed to touch — is
//! implemented and proved here over plain byte-string file names.  The
//! process spawning and file-system work itself stays outside, in an
//! unverified shell that only performs the actions planned here.

pub mod names;
pub mod order;
pub mod laws;
pub mod pipeline;
