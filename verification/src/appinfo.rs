//! The record that describes one application in an application-info file,
//! and the magic numbers by which such a file is known.

use vstd::prelude::*;

verus! {

/// The magic number of the older schema generation.
pub const APPINFO_MAGIC: u32 = 0x0756_4427;

/// The magic number of the schema generation of 2022.
pub const APPINFO_MAGIC_2022: u32 = 0x0756_4428;

/// The fixed part of an application's record in the schema generation of
/// 2022.
#[allow(dead_code)]
pub struct AppInfo2022 {
    app_id: u32,
    /// The number of bytes from here to the end of the record's tree.
    size: u32,
    info_state: u32,
    last_updated: u32,
    pics_token: u64,
    /// The hash of the record as text.
    sha1: [u8; 20],
    change_number: u32,
    /// The hash of the record's binary tree.
    binary_sha1: [u8; 20],
}

/// The fixed part of an application's record in the older schema generation.
#[allow(dead_code)]
pub struct AppInfo {
    app_id: u32,
    size: u32,
    info_state: u32,
    last_updated: u32,
    pics_token: u64,
    sha1: [u8; 20],
    change_number: u32,
}

} // verus!
