pub mod archive;
pub mod catalog;
pub mod enablement;
pub mod errors;
pub mod fstree;
pub mod ledger;
pub mod overlay;
pub mod pipeline;
pub mod queue;
pub mod settings;
pub mod strutil;
pub mod transfer;
