//! An exFAT volume: planning one, writing one, and reading one back.
pub mod allocate;
pub mod boot;
pub mod bounded;
pub mod bytes;
pub mod chains;
pub mod clean;
pub mod contents;
pub mod crosslinks;
pub mod csum;
pub mod detect;
pub mod deviation;
pub mod dirent;
pub mod entryset;
pub mod error;
pub mod ext;
pub mod fidelity;
pub mod finding;
pub mod fitting;
pub mod fresh;
pub mod freshboot;
pub mod geometry;
pub mod image;
pub mod label;
pub mod listing;
pub mod lookup;
pub mod losses;
pub mod materialize;
pub mod model;
pub mod name;
pub mod node;
pub mod number;
pub mod open;
pub mod opening;
pub mod options;
pub mod parse;
pub mod path;
pub mod place;
pub mod placed;
pub mod placing;
pub mod policy;
pub mod read_error;
pub mod reader;
pub mod recorded;
pub mod recover;
pub mod relist;
pub mod reopen;
pub mod reread;
pub mod rescan;
pub mod resolving;
pub mod rewalk;
pub mod roundtrip;
pub mod scan;
pub mod set;
pub mod slots;
pub mod sort;
pub mod soundness;
pub mod source;
pub mod strictness;
pub mod table;
pub mod text;
pub mod time;
pub mod tree;
pub mod unicode;
pub mod upcase;
pub mod upcase_table;
pub mod volume;
pub mod walk;
pub mod walking;
pub mod written;
