//! The fixed 180-byte file header, the error kinds of decoding, and
//! big-endian field readers.
use vstd::prelude::*;
use vstd::slice::{slice_subrange, slice_to_vec};

verus! {

/// Why a buffer could not be decoded.
#[derive(Debug, Clone, Copy, PartialEq, Eq, Structural)]
pub enum UcsfError {
    /// The format version field holds another value than the supported one.
    UnsupportedFormat,
    /// The number of components per sample is not one (real data).
    UnsupportedComponents,
    /// Malformed or truncated input.
    Parsing,
}

impl UcsfError {
    /// A sentence that describes the error.
    pub fn message(&self) -> (r: String)
        ensures
            *self == UcsfError::UnsupportedFormat ==> r@ == FORMAT_MESSAGE@,
            *self == UcsfError::UnsupportedComponents ==> r@ == COMPONENTS_MESSAGE@,
            *self == UcsfError::Parsing ==> r@ == PARSING_MESSAGE@,
    {
        match self {
            UcsfError::UnsupportedFormat => String::from_str(FORMAT_MESSAGE),
            UcsfError::UnsupportedComponents => String::from_str(COMPONENTS_MESSAGE),
            UcsfError::Parsing => String::from_str(PARSING_MESSAGE),
        }
    }
}

/// What `UcsfError::UnsupportedFormat` says.
pub const FORMAT_MESSAGE: &'static str =
    "Unsupported format version. Currently the parser only supports format version 2.";

/// What `UcsfError::UnsupportedComponents` says.
pub const COMPONENTS_MESSAGE: &'static str =
    "Unsupported number of components. Currently the parser only supports files with 1 component per data point (= Real).";

/// What `UcsfError::Parsing` says.
pub const PARSING_MESSAGE: &'static str = "Failed to parse";

/// Length of the file header in bytes.
pub const HEADER_LEN: usize = 180;

/// The only supported format version.
pub const FORMAT_VERSION: u16 = 2;

/// The magic token that opens every file: `UCSF NMR`.
pub open spec fn magic() -> Seq<u8> {
    seq![0x55u8, 0x43u8, 0x53u8, 0x46u8, 0x20u8, 0x4Eu8, 0x4Du8, 0x52u8]
}

/// Big-endian unsigned 16-bit value of the two bytes at `i`.
pub open spec fn be_u16_at(b: Seq<u8>, i: int) -> int {
    b[i] * 256 + b[i + 1]
}

/// Big-endian unsigned 32-bit value of the four bytes at `i`.
pub open spec fn be_u32_at(b: Seq<u8>, i: int) -> int {
    ((b[i] * 256 + b[i + 1]) * 256 + b[i + 2]) * 256 + b[i + 3]
}

/// Reads the big-endian `u16` at `i`.
pub fn read_be_u16(b: &[u8], i: usize) -> (r: u16)
    requires
        i + 2 <= b@.len(),
    ensures
        r == be_u16_at(b@, i as int),
{
    (b[i] as u16) * 256 + (b[i + 1] as u16)
}

/// Reads the big-endian `u32` at `i`.
pub fn read_be_u32(b: &[u8], i: usize) -> (r: u32)
    requires
        i + 4 <= b@.len(),
    ensures
        r == be_u32_at(b@, i as int),
{
    let hi = (b[i] as u32) * 256 + (b[i + 1] as u32);
    let mid = hi * 256 + (b[i + 2] as u32);
    mid * 256 + (b[i + 3] as u32)
}

/// The outcome of header validation on `b`, checked in order: length and
/// magic, then component count, then format version.
pub open spec fn header_error(b: Seq<u8>) -> Option<UcsfError> {
    if b.len() < HEADER_LEN || b.subrange(0, 8) != magic() {
        Some(UcsfError::Parsing)
    } else if b[11] != 1 {
        Some(UcsfError::UnsupportedComponents)
    } else if be_u16_at(b, 12) != FORMAT_VERSION {
        Some(UcsfError::UnsupportedFormat)
    } else {
        None
    }
}

/// 180 byte header: the magic token, two unused bytes, the dimension count,
/// the component count, the format version and 166 bytes kept as they are.
#[derive(Debug, Clone, PartialEq, Eq)]
pub struct Header {
    /// Number of dimensions in the spectrum (byte 10).
    pub dimensions: u8,
    /// Number of components for each data point, 1 = real (byte 11).
    pub components: u8,
    /// Format version (bytes 12-13).
    pub format_version: u16,
    /// Remaining unspecified bytes, often the date of recording (bytes 14-179).
    pub remainder: Vec<u8>,
}

impl Header {
    /// `self` is the header that the first 180 bytes of `b` hold.
    pub open spec fn decodes(&self, b: Seq<u8>) -> bool {
        &&& b.len() >= HEADER_LEN
        &&& self.dimensions == b[10]
        &&& self.components == b[11]
        &&& self.format_version == be_u16_at(b, 12)
        &&& self.remainder@ == b.subrange(14, HEADER_LEN as int)
    }

    /// Decodes the file header at the start of `input` and returns it with
    /// the bytes that follow it.
    pub fn parse(input: &[u8]) -> (r: Result<(&[u8], Header), UcsfError>)
        ensures
            r is Err <==> header_error(input@) is Some,
            r matches Err(e) ==> header_error(input@) == Some(e),
            r matches Ok((rest, h)) ==> {
                &&& h.decodes(input@)
                &&& rest@ == input@.subrange(HEADER_LEN as int, input@.len() as int)
            },
    {
        if input.len() < HEADER_LEN || !has_magic(input) {
            return Err(UcsfError::Parsing);
        }
        let dimensions = input[10];
        let components = input[11];
        let format_version = read_be_u16(input, 12);
        if components != 1 {
            return Err(UcsfError::UnsupportedComponents);
        }
        if format_version != FORMAT_VERSION {
            return Err(UcsfError::UnsupportedFormat);
        }
        let remainder = slice_to_vec(slice_subrange(input, 14, HEADER_LEN));
        let (_, rest) = input.split_at(HEADER_LEN);
        Ok((rest, Header { dimensions, components, format_version, remainder }))
    }
}

/// Whether `b` starts with the magic token.
fn has_magic(b: &[u8]) -> (r: bool)
    requires
        b@.len() >= 8,
    ensures
        r == (b@.subrange(0, 8) == magic()),
{
    let expected: [u8; 8] = [0x55, 0x43, 0x53, 0x46, 0x20, 0x4E, 0x4D, 0x52];
    assert(expected@ =~= magic());
    let mut i: usize = 0;
    while i < 8
        invariant
            i <= 8 <= b@.len(),
            expected@ == magic(),
            forall|j: int| 0 <= j < i ==> b@[j] == magic()[j],
        decreases 8 - i,
    {
        if b[i] != expected[i] {
            assert(b@.subrange(0, 8)[i as int] != magic()[i as int]);
            return false;
        }
        i = i + 1;
    }
    assert(b@.subrange(0, 8) =~= magic());
    true
}

} // verus!
