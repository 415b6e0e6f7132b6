//! Binary key/value tree format used for application shortcut files, the
//! merge of a shortcut record into such a file, and the names, commands and
//! system report used to deploy games to a devkit.

pub mod vdf;
pub mod round_trip;
pub mod shortcut;
pub mod devkit;
pub mod os_release;
