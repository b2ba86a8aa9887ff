//! The header of a file: a magic number that names the schema generation, and
//! a schema version. The header decides whether the rest of the file can be
//! decoded at all; it does not depend on the tag decoder.

use crate::appinfo::{APPINFO_MAGIC, APPINFO_MAGIC_2022};
use crate::cursor::take_le_u32;
use crate::error::DecodeError;
use crate::grammar::{done, failed, le_u32_value, u32_le, Decoded};
use vstd::prelude::*;

verus! {

/// The header of a file. A header is a plain value: once built it does not
/// change.
#[derive(Debug, Clone, Copy, PartialEq, Eq, Structural)]
pub struct SteamHeader {
    magic: u32,
    version: u32,
}

/// Builds a `SteamHeader` field by field, in any order.
pub struct SteamHeaderBuilder {
    magic: u32,
    version: u32,
}

impl SteamHeader {
    /// The magic number of the header.
    pub closed spec fn spec_magic(&self) -> u32 {
        self.magic
    }

    /// The schema version of the header.
    pub closed spec fn spec_version(&self) -> u32 {
        self.version
    }

    /// A header is its two fields: headers with the same magic number and
    /// the same version are equal.
    pub proof fn lemma_same_fields(self, other: Self)
        requires
            self.magic() == other.magic(),
            self.version() == other.version(),
        ensures
            self == other,
    {
    }

    /// The header with the given magic number and version.
    fn new(magic: u32, version: u32) -> (h: Self)
        ensures
            h.magic() == magic,
            h.version() == version,
    {
        Self { magic, version }
    }

    /// The magic number of the header.
    #[verifier::when_used_as_spec(spec_magic)]
    pub fn magic(&self) -> (m: u32)
        ensures
            m == self.magic(),
    {
        self.magic
    }

    /// The schema version of the header.
    #[verifier::when_used_as_spec(spec_version)]
    pub fn version(&self) -> (v: u32)
        ensures
            v == self.version(),
    {
        self.version
    }
}

impl Default for SteamHeader {
    /// The header with magic number 0 and version 0.
    fn default() -> (h: Self)
        ensures
            h.magic() == 0,
            h.version() == 0,
    {
        Self { magic: 0, version: 0 }
    }
}

impl SteamHeaderBuilder {
    /// The magic number that `build` will use.
    pub closed spec fn spec_magic(&self) -> u32 {
        self.magic
    }

    /// The schema version that `build` will use.
    pub closed spec fn spec_version(&self) -> u32 {
        self.version
    }

    /// A builder with magic number 0 and version 1.
    pub fn new() -> (b: Self)
        ensures
            b.spec_magic() == 0,
            b.spec_version() == 1,
    {
        Self { magic: 0, version: 1 }
    }

    /// Sets the magic number and leaves the version as it is.
    pub fn magic(&mut self, magic: u32) -> (b: &mut Self)
        ensures
            b.spec_magic() == magic,
            b.spec_version() == old(self).spec_version(),
            *final(self) == *final(b),
    {
        self.magic = magic;
        self
    }

    /// Sets the version and leaves the magic number as it is.
    pub fn version(&mut self, version: u32) -> (b: &mut Self)
        ensures
            b.spec_magic() == old(self).spec_magic(),
            b.spec_version() == version,
            *final(self) == *final(b),
    {
        self.version = version;
        self
    }

    /// The header with the magic number and the version of the builder.
    pub fn build(&self) -> (h: SteamHeader)
        ensures
            h.magic() == self.spec_magic(),
            h.version() == self.spec_version(),
    {
        SteamHeader::new(self.magic, self.version)
    }
}

/// Whether `magic` names a schema generation that is known.
pub open spec fn is_known_magic(magic: u32) -> bool {
    magic == APPINFO_MAGIC || magic == APPINFO_MAGIC_2022
}

/// `Header`: the magic number and the version, four bytes each, lowest byte
/// first. Whatever the magic number is, it is accepted here.
pub open spec fn header(s: Seq<u8>) -> Decoded<(u32, u32)> {
    let magic = u32_le(s);
    match magic.result {
        Err(e) => failed(e, magic.rest),
        Ok(m) => {
            let version = u32_le(magic.rest);
            match version.result {
                Err(e) => failed(e, version.rest),
                Ok(v) => done((m, v), version.rest),
            }
        },
    }
}

/// The header of a file: a `Header` whose magic number is known. An unknown
/// magic number fails the decode and consumes nothing.
pub open spec fn file_header(s: Seq<u8>) -> Decoded<(u32, u32)> {
    let magic = u32_le(s);
    match magic.result {
        Err(e) => failed(e, s),
        Ok(m) => if is_known_magic(m) {
            header(s)
        } else {
            failed(DecodeError::UnrecognizedMagic, s)
        },
    }
}

/// `r` and `rest` are what `d` says: the same failure, or a header with the
/// same magic number and version, and the same bytes left.
pub open spec fn header_decoded(
    r: Result<SteamHeader, DecodeError>,
    rest: Seq<u8>,
    d: Decoded<(u32, u32)>,
) -> bool {
    &&& rest == d.rest
    &&& match d.result {
        Ok(fields) => r matches Ok(h) && h.magic() == fields.0 && h.version() == fields.1,
        Err(e) => r matches Err(x) && x == e,
    }
}

/// Decodes a header without looking at what its magic number is.
pub fn parse_steam_header(input: &mut &[u8]) -> (r: Result<SteamHeader, DecodeError>)
    ensures
        header_decoded(r, final(input)@, header(old(input)@)),
{
    let magic = match take_le_u32(input) {
        None => { return Err(DecodeError::Truncation); },
        Some(magic) => magic,
    };
    let version = match take_le_u32(input) {
        None => { return Err(DecodeError::Truncation); },
        Some(version) => version,
    };
    Ok(SteamHeaderBuilder::new().magic(magic).version(version).build())
}

/// Decodes the header of a file. The first four bytes are looked at before
/// anything is consumed: only a known magic number lets the decode go on.
/// Both schema generations have the same header.
pub fn parse_vdf_file(input: &mut &[u8]) -> (r: Result<SteamHeader, DecodeError>)
    ensures
        header_decoded(r, final(input)@, file_header(old(input)@)),
        r matches Ok(h) ==> is_known_magic(h.magic()),
        old(input)@.len() >= 8 && is_known_magic(le_u32_value(old(input)@)) ==> {
            &&& r matches Ok(h)
            &&& h.magic() == le_u32_value(old(input)@)
            &&& h.version() == le_u32_value(old(input)@.skip(4))
            &&& final(input)@ == old(input)@.skip(8)
        },
        old(input)@.len() >= 4 && !is_known_magic(le_u32_value(old(input)@)) ==> {
            &&& r matches Err(e)
            &&& e == DecodeError::UnrecognizedMagic
            &&& final(input)@ == old(input)@
        },
        old(input)@.len() < 4 ==> {
            &&& r matches Err(e)
            &&& e == DecodeError::Truncation
            &&& final(input)@ == old(input)@
        },
{
    let mut ahead: &[u8] = *input;
    match take_le_u32(&mut ahead) {
        None => Err(DecodeError::Truncation),
        Some(magic) => {
            if magic == APPINFO_MAGIC {
                parse_steam_header(input)
            } else if magic == APPINFO_MAGIC_2022 {
                parse_steam_header(input)
            } else {
                Err(DecodeError::UnrecognizedMagic)
            }
        },
    }
}

} // verus!
