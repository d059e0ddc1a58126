use vstd::prelude::*;

use crate::text::concat;

verus! {

/// Bumped when a change to the header's fields or the payload's layout is one an older reader would
/// misread rather than refuse.
pub const FORMAT_VERSION: u32 = 3;

pub const HEADER_SUFFIX: &'static str = ".header.json";

pub const PAYLOAD_SUFFIX: &'static str = ".payload.bin";

/// One suffix for both temporaries, so an interrupted build leaves names the next build can name back.
pub const TEMPORARY_SUFFIX: &'static str = ".tmp";

/// How many bytes one cell of a payload takes: an IEEE double.
pub const CELL_BYTES: usize = 8;

/// The order a payload's cells are in.
#[derive(Debug, Clone, Copy, PartialEq, Eq, Structural)]
pub enum ByteOrder {
    Little,
    Big,
}

/// The bytes of the two-byte integer one in this host's order, through `u16::to_ne_bytes`, which std
/// documents as the integer's memory representation in native byte order: `[1, 0]` on a little-endian
/// host and `[0, 1]` on a big-endian one.
#[verifier::external_body]
fn native_bytes_of_one() -> (bytes: [u8; 2])
    ensures
        (bytes@ == seq![1u8, 0u8]) || (bytes@ == seq![0u8, 1u8]),
{
    1u16.to_ne_bytes()
}

impl ByteOrder {
    /// The order every payload is written in, and the only one a reader accepts: this host's own. A
    /// payload from a host of the other order is rebuilt rather than reinterpreted.
    ///
    /// Which order that is depends on the machine, so nothing here names it: the host's bytes of the
    /// integer one decide, as [`Self::of_one`] reads them.
    pub fn host() -> (order: Self) {
        let bytes = native_bytes_of_one();
        match Self::of_one(bytes) {
            Some(order) => order,
            None => {
                proof {
                    assert(false);
                }
                ByteOrder::Little
            },
        }
    }

    /// The order whose two-byte integer one is `bytes`: the low byte first is little-endian, the high
    /// byte first big-endian, and any other pair is no integer one at all.
    pub fn of_one(bytes: [u8; 2]) -> (order: Option<Self>)
        ensures
            order == (if bytes@ == seq![1u8, 0u8] {
                Some(ByteOrder::Little)
            } else if bytes@ == seq![0u8, 1u8] {
                Some(ByteOrder::Big)
            } else {
                None
            }),
    {
        if bytes[0] == 1 && bytes[1] == 0 {
            proof {
                assert(bytes@ =~= seq![1u8, 0u8]);
            }
            Some(ByteOrder::Little)
        } else if bytes[0] == 0 && bytes[1] == 1 {
            proof {
                assert(bytes@ =~= seq![0u8, 1u8]);
            }
            Some(ByteOrder::Big)
        } else {
            proof {
                assert(bytes@ != seq![1u8, 0u8] ==> bytes@[0] != 1u8 || bytes@[1] != 0u8);
            }
            None
        }
    }

    /// How the order reads in a message.
    pub fn name(&self) -> (text: &'static str)
        ensures
            text@ == (match *self {
                ByteOrder::Little => "little-endian"@,
                ByteOrder::Big => "big-endian"@,
            }),
    {
        match self {
            ByteOrder::Little => "little-endian",
            ByteOrder::Big => "big-endian",
        }
    }
}

/// What a caller requires of a cache before it will read one: the cells the table was built from, and
/// how coarsely they were folded, with the dimensions of the table's own grid that the factor gives.
#[derive(Debug, Clone, Copy, PartialEq, Eq, Structural)]
pub struct Identity {
    pub digest: u64,
    pub factor: u32,
    pub width: u32,
    pub height: u32,
}

/// The whole-number half of what a document claims the table beside it is: the digest, the table's
/// dimensions and the decimation factor. The grid's geometry is compared within a tolerance beside it.
#[derive(Debug, Clone, Copy, PartialEq, Eq, Structural)]
pub struct Attested {
    pub digest: u64,
    pub width: u32,
    pub height: u32,
    pub decimation: u32,
}

impl Attested {
    /// What a document written for `identity` attests.
    pub fn new(identity: &Identity) -> (attested: Self)
        ensures
            attested == (Attested {
                digest: identity.digest,
                width: identity.width,
                height: identity.height,
                decimation: identity.factor,
            }),
    {
        Attested {
            digest: identity.digest,
            width: identity.width,
            height: identity.height,
            decimation: identity.factor,
        }
    }
}

/// Which of the exact grounds a document and an [`Identity`] disagree on.
#[derive(Debug, Clone, Copy, PartialEq, Eq, Structural)]
pub enum Mismatch {
    Digest { wanted: u64, found: u64 },
    Width { wanted: u32, found: u32 },
    Height { wanted: u32, found: u32 },
    DecimationFactor { wanted: u32, found: u32 },
}

/// The first exact ground on which `found` is not `wanted`, in the order digest, width, height, factor.
pub open spec fn spec_mismatch(found: Attested, wanted: Identity) -> Option<Mismatch> {
    if found.digest != wanted.digest {
        Some(Mismatch::Digest { wanted: wanted.digest, found: found.digest })
    } else if found.width != wanted.width {
        Some(Mismatch::Width { wanted: wanted.width, found: found.width })
    } else if found.height != wanted.height {
        Some(Mismatch::Height { wanted: wanted.height, found: found.height })
    } else if found.decimation != wanted.factor {
        Some(Mismatch::DecimationFactor { wanted: wanted.factor, found: found.decimation })
    } else {
        None
    }
}

impl Attested {
    /// The digest, the dimensions and the factor, exactly.
    ///
    /// # Errors
    /// [`Mismatch`], naming the first field that differs.
    pub fn check(&self, wanted: &Identity) -> (checked: Result<(), Mismatch>)
        ensures
            match spec_mismatch(*self, *wanted) {
                None => checked is Ok,
                Some(m) => checked == Err::<(), Mismatch>(m),
            },
    {
        if self.digest != wanted.digest {
            return Err(Mismatch::Digest { wanted: wanted.digest, found: self.digest });
        }
        if self.width != wanted.width {
            return Err(Mismatch::Width { wanted: wanted.width, found: self.width });
        }
        if self.height != wanted.height {
            return Err(Mismatch::Height { wanted: wanted.height, found: self.height });
        }
        if self.decimation != wanted.factor {
            return Err(Mismatch::DecimationFactor { wanted: wanted.factor, found: self.decimation });
        }
        Ok(())
    }
}

/// A document written for an identity is a document of that identity: what [`Attested::new`] writes,
/// [`Attested::check`] accepts.
pub proof fn lemma_a_written_header_is_accepted(identity: Identity)
    ensures
        spec_mismatch(
            Attested {
                digest: identity.digest,
                width: identity.width,
                height: identity.height,
                decimation: identity.factor,
            },
            identity,
        ) is None,
{
}

/// Why a cache header is not the header of the table wanted, on the grounds that are whole numbers and
/// names.
#[derive(Debug, Clone, Copy, PartialEq, Eq, Structural)]
pub enum HeaderRefusal {
    FormatVersion { expected: u32, found: u32 },
    ByteOrderMismatch { expected: ByteOrder, found: ByteOrder },
    NotThisTable(Mismatch),
}

/// What a header is checked for, in order: the version first, because a header of another version need not carry the
/// rest; then the byte order, because a payload in the other order is not a number this host can
/// compare against anything; then the identity.
pub open spec fn spec_header_refusal(
    version: u32,
    order: ByteOrder,
    host: ByteOrder,
    found: Attested,
    wanted: Identity,
) -> Option<HeaderRefusal> {
    if version != FORMAT_VERSION {
        Some(HeaderRefusal::FormatVersion { expected: FORMAT_VERSION, found: version })
    } else if order != host {
        Some(HeaderRefusal::ByteOrderMismatch { expected: host, found: order })
    } else {
        match spec_mismatch(found, wanted) {
            Some(m) => Some(HeaderRefusal::NotThisTable(m)),
            None => None,
        }
    }
}

/// How a reader checks a header's version, read out of the document before the rest of it: a header of
/// another version need not parse into this one's shape at all, and [`check_header`] refuses it first
/// with the same refusal.
pub fn check_header_version(version: u32) -> (checked: Result<(), HeaderRefusal>)
    ensures
        version == FORMAT_VERSION ==> checked is Ok,
        version != FORMAT_VERSION ==> checked == Err::<(), HeaderRefusal>(
            HeaderRefusal::FormatVersion { expected: FORMAT_VERSION, found: version },
        ),
{
    if version != FORMAT_VERSION {
        return Err(HeaderRefusal::FormatVersion { expected: FORMAT_VERSION, found: version });
    }
    Ok(())
}

/// Checks a header's version, byte order and identity against what the caller wants, in that order;
/// `host` is this host's byte order, [`ByteOrder::host`].
pub fn check_header(
    version: u32,
    order: ByteOrder,
    host: ByteOrder,
    found: &Attested,
    wanted: &Identity,
) -> (checked: Result<(), HeaderRefusal>)
    ensures
        match spec_header_refusal(version, order, host, *found, *wanted) {
            None => checked is Ok,
            Some(refusal) => checked == Err::<(), HeaderRefusal>(refusal),
        },
{
    if version != FORMAT_VERSION {
        return Err(HeaderRefusal::FormatVersion { expected: FORMAT_VERSION, found: version });
    }
    if order != host {
        return Err(HeaderRefusal::ByteOrderMismatch { expected: host, found: order });
    }
    match found.check(wanted) {
        Ok(()) => Ok(()),
        Err(m) => Err(HeaderRefusal::NotThisTable(m)),
    }
}

/// `base` with `suffix` appended: the path a suffix names beside a base, which is not a directory and
/// not a file.
pub fn suffixed(base: &str, suffix: &str) -> (path: String)
    ensures
        path@ == base@ + suffix@,
{
    concat(base, suffix)
}

/// The two files a cache is, at one location, and the temporaries a build writes them under.
#[derive(Debug, Clone)]
pub struct Cache {
    header: String,
    payload: String,
    header_temporary: String,
    payload_temporary: String,
}

impl Cache {
    pub closed spec fn spec_header(&self) -> Seq<char> {
        self.header@
    }

    pub closed spec fn spec_payload(&self) -> Seq<char> {
        self.payload@
    }

    pub closed spec fn spec_header_temporary(&self) -> Seq<char> {
        self.header_temporary@
    }

    pub closed spec fn spec_payload_temporary(&self) -> Seq<char> {
        self.payload_temporary@
    }

    /// `base` names both files: it is a path with the suffixes this module owns appended.
    pub fn new(base: &str) -> (cache: Self)
        ensures
            cache.spec_header() == base@ + HEADER_SUFFIX@,
            cache.spec_payload() == base@ + PAYLOAD_SUFFIX@,
            cache.spec_header_temporary() == base@ + HEADER_SUFFIX@ + TEMPORARY_SUFFIX@,
            cache.spec_payload_temporary() == base@ + PAYLOAD_SUFFIX@ + TEMPORARY_SUFFIX@,
    {
        let header = suffixed(base, HEADER_SUFFIX);
        let payload = suffixed(base, PAYLOAD_SUFFIX);
        let header_temporary = suffixed(header.as_str(), TEMPORARY_SUFFIX);
        let payload_temporary = suffixed(payload.as_str(), TEMPORARY_SUFFIX);
        Cache { header, payload, header_temporary, payload_temporary }
    }

    pub fn header_path(&self) -> (path: &str)
        ensures
            path@ == self.spec_header(),
    {
        self.header.as_str()
    }

    pub fn payload_path(&self) -> (path: &str)
        ensures
            path@ == self.spec_payload(),
    {
        self.payload.as_str()
    }

    pub fn header_temporary_path(&self) -> (path: &str)
        ensures
            path@ == self.spec_header_temporary(),
    {
        self.header_temporary.as_str()
    }

    pub fn payload_temporary_path(&self) -> (path: &str)
        ensures
            path@ == self.spec_payload_temporary(),
    {
        self.payload_temporary.as_str()
    }
}

/// The bytes a payload of `cells` cells takes, saturating: a cell count too large for this host's
/// addresses is a length no payload matches, rather than a smaller one some payload does.
pub open spec fn spec_payload_bytes(cells: usize) -> usize {
    if cells * CELL_BYTES <= usize::MAX {
        (cells * CELL_BYTES) as usize
    } else {
        usize::MAX
    }
}

pub fn payload_bytes(cells: usize) -> (bytes: usize)
    ensures
        bytes == spec_payload_bytes(cells),
{
    match cells.checked_mul(CELL_BYTES) {
        Some(bytes) => bytes,
        None => usize::MAX,
    }
}

/// A payload that is not the length its header describes.
#[derive(Debug, Clone, Copy, PartialEq, Eq, Structural)]
pub enum LengthError {
    /// The payload stops before the bytes the header describes.
    Truncated { expected: usize, found: usize },
    /// The payload carries bytes past the ones the header describes.
    Trailing { expected: usize, found: usize },
}

/// Whether `found` bytes are the `expected` ones, and which way they miss.
pub open spec fn spec_length_error(expected: usize, found: usize) -> Option<LengthError> {
    if found < expected {
        Some(LengthError::Truncated { expected, found })
    } else if found > expected {
        Some(LengthError::Trailing { expected, found })
    } else {
        None
    }
}

pub fn check_length(expected: usize, found: usize) -> (checked: Result<(), LengthError>)
    ensures
        match spec_length_error(expected, found) {
            None => checked is Ok,
            Some(e) => checked == Err::<(), LengthError>(e),
        },
{
    if found < expected {
        return Err(LengthError::Truncated { expected, found });
    }
    if found > expected {
        return Err(LengthError::Trailing { expected, found });
    }
    Ok(())
}

/// A payload read into memory, and the cell count the header said it would be.
///
/// It owns bytes rather than cells because the length check is what makes them cells: see
/// [`Payload::check`].
#[derive(Debug)]
pub struct Payload {
    bytes: Vec<u8>,
    cells: usize,
}

impl Payload {
    pub closed spec fn spec_bytes(&self) -> Seq<u8> {
        self.bytes@
    }

    pub closed spec fn spec_cells(&self) -> usize {
        self.cells
    }

    pub fn new(bytes: Vec<u8>, cells: usize) -> (payload: Self)
        ensures
            payload.spec_bytes() == bytes@,
            payload.spec_cells() == cells,
    {
        Payload { bytes, cells }
    }

    /// Whether the bytes are exactly the cells the header described.
    ///
    /// # Errors
    /// [`LengthError`] when they stop short or run past.
    pub fn check(&self) -> (checked: Result<(), LengthError>)
        ensures
            match spec_length_error(spec_payload_bytes(self.spec_cells()), self.spec_bytes().len() as usize) {
                None => checked is Ok,
                Some(e) => checked == Err::<(), LengthError>(e),
            },
    {
        check_length(payload_bytes(self.cells), self.bytes.len())
    }

    pub fn bytes(&self) -> (bytes: &[u8])
        ensures
            bytes@ == self.spec_bytes(),
    {
        self.bytes.as_slice()
    }

    pub fn cells(&self) -> (cells: usize)
        ensures
            cells == self.spec_cells(),
    {
        self.cells
    }
}

} // verus!
