//! The FUSE messages that virtio-fs carries.

use vstd::prelude::*;

use crate::bytes;
use crate::bytes::{get_u32, get_u64, put_slice, put_u16, put_u32, put_u64, put_zeros};
use crate::error::{DeviceError, IoError};

verus! {

pub const FUSE_ROOT_ID: u64 = 1;

pub const FUSE_LOOKUP: u32 = 1;

pub const FUSE_FORGET: u32 = 2;

pub const FUSE_GETATTR: u32 = 3;

pub const FUSE_OPEN: u32 = 14;

pub const FUSE_READ: u32 = 15;

pub const FUSE_STATFS: u32 = 17;

pub const FUSE_RELEASE: u32 = 18;

pub const FUSE_INIT: u32 = 26;

pub const FUSE_OPENDIR: u32 = 27;

pub const FUSE_READDIR: u32 = 28;

pub const FUSE_RELEASEDIR: u32 = 29;

pub const FUSE_DESTROY: u32 = 38;

pub const FUSE_IN_HEADER_SIZE: usize = 40;

pub const FUSE_OUT_HEADER_SIZE: usize = 16;

pub const FUSE_INIT_OUT_SIZE: usize = 64;

pub const FUSE_ATTR_SIZE: usize = 88;

pub const FUSE_ENTRY_OUT_SIZE: usize = 128;

pub const FUSE_ATTR_OUT_SIZE: usize = 104;

pub const FUSE_OPEN_OUT_SIZE: usize = 16;

pub const FUSE_STATFS_OUT_SIZE: usize = 80;

pub const FUSE_MIN_VERSION: u32 = 7;

pub const FUSE_MIN_MINOR: u32 = 31;

/// The most bytes that one read gives.
pub const FUSE_MAX_READ: usize = 1_048_576;

/// The bytes of a directory record in front of the name.
pub const DIRENT_HEADER_SIZE: usize = 24;

/// The mode of a directory: anybody may list it.
pub const DIRECTORY_MODE: u32 = 0o040555;

/// The mode of a file: anybody may read it.
pub const FILE_MODE: u32 = 0o100444;

/// The kind that a directory record gives for a directory.
pub const DIRECTORY_KIND: u32 = 4;

/// The kind that a directory record gives for a file.
pub const FILE_KIND: u32 = 8;

/// The number in `width` bytes at `offset`, or why there is none.
pub open spec fn field(bytes: Seq<u8>, offset: usize, width: int) -> Result<nat, DeviceError> {
    if offset + width > usize::MAX {
        Err(DeviceError::Descriptor("FUSE field overflow"))
    } else if offset + width > bytes.len() {
        Err(DeviceError::Descriptor("short FUSE field"))
    } else {
        Ok(bytes::le_field(bytes, offset as int, width))
    }
}

pub fn read_u32(bytes: &[u8], offset: usize) -> (result: Result<u32, DeviceError>)
    ensures
        match result {
            Ok(value) => field(bytes@, offset, 4) == Ok::<nat, DeviceError>(value as nat),
            Err(error) => field(bytes@, offset, 4) == Err::<nat, DeviceError>(error),
        },
{
    match offset.checked_add(4) {
        None => Err(DeviceError::Descriptor("FUSE field overflow")),
        Some(end) => {
            if end > bytes.len() {
                return Err(DeviceError::Descriptor("short FUSE field"));
            }
            Ok(get_u32(bytes, offset))
        },
    }
}

pub fn read_u64(bytes: &[u8], offset: usize) -> (result: Result<u64, DeviceError>)
    ensures
        match result {
            Ok(value) => field(bytes@, offset, 8) == Ok::<nat, DeviceError>(value as nat),
            Err(error) => field(bytes@, offset, 8) == Err::<nat, DeviceError>(error),
        },
{
    match offset.checked_add(8) {
        None => Err(DeviceError::Descriptor("FUSE field overflow")),
        Some(end) => {
            if end > bytes.len() {
                return Err(DeviceError::Descriptor("short FUSE field"));
            }
            Ok(get_u64(bytes, offset))
        },
    }
}

/// The header of a request.
#[derive(Clone, Copy, Debug, PartialEq, Eq, Structural)]
pub struct FuseInHeader {
    pub length: u32,
    pub opcode: u32,
    pub unique: u64,
    pub node_id: u64,
}

impl FuseInHeader {
    /// The header that `bytes` start with.
    pub open spec fn of(bytes: Seq<u8>) -> FuseInHeader {
        FuseInHeader {
            length: bytes::le_field(bytes, 0, 4) as u32,
            opcode: bytes::le_field(bytes, 4, 4) as u32,
            unique: bytes::le_field(bytes, 8, 8) as u64,
            node_id: bytes::le_field(bytes, 16, 8) as u64,
        }
    }

    pub fn parse(bytes: &[u8]) -> (result: Result<Self, DeviceError>)
        ensures
            result == if bytes@.len() < FUSE_IN_HEADER_SIZE {
                Err::<Self, DeviceError>(DeviceError::Descriptor("short FUSE request header"))
            } else {
                Ok::<Self, DeviceError>(FuseInHeader::of(bytes@))
            },
    {
        if bytes.len() < FUSE_IN_HEADER_SIZE {
            return Err(DeviceError::Descriptor("short FUSE request header"));
        }
        Ok(
            FuseInHeader {
                length: read_u32(bytes, 0)?,
                opcode: read_u32(bytes, 4)?,
                unique: read_u64(bytes, 8)?,
                node_id: read_u64(bytes, 16)?,
            },
        )
    }
}

/// The answer to a handshake: the version, how much is read at once, the time
/// granularity and the pages of a request.
pub open spec fn init_out() -> Seq<u8> {
    bytes::le_bytes(FUSE_MIN_VERSION as nat, 4) + bytes::le_bytes(FUSE_MIN_MINOR as nat, 4)
        + bytes::le_bytes(FUSE_MAX_READ as nat, 4) + bytes::zeros(8) + bytes::le_bytes(
        FUSE_MAX_READ as nat,
        4,
    ) + bytes::le_bytes(1, 4) + bytes::le_bytes(256, 2) + bytes::zeros(34)
}

/// What a handshake is answered.
pub open spec fn spec_init_reply(payload: Seq<u8>) -> Result<Seq<u8>, DeviceError> {
    if payload.len() < 16 {
        Err(DeviceError::Descriptor("short FUSE_INIT request"))
    } else if bytes::le_field(payload, 0, 4) != FUSE_MIN_VERSION {
        Err(DeviceError::Descriptor("unsupported FUSE major version"))
    } else {
        Ok(init_out())
    }
}

/// A result as what its bytes are.
pub open spec fn body_of(result: Result<Vec<u8>, DeviceError>) -> Result<Seq<u8>, DeviceError> {
    match result {
        Ok(bytes) => Ok(bytes@),
        Err(error) => Err(error),
    }
}

pub fn init_reply(payload: &[u8]) -> (result: Result<Vec<u8>, DeviceError>)
    ensures
        body_of(result) == spec_init_reply(payload@),
        result matches Ok(body) ==> body@.len() == FUSE_INIT_OUT_SIZE,
{
    if payload.len() < 16 {
        return Err(DeviceError::Descriptor("short FUSE_INIT request"));
    }
    let major: u32 = read_u32(payload, 0)?;
    if major != FUSE_MIN_VERSION {
        return Err(DeviceError::Descriptor("unsupported FUSE major version"));
    }
    let mut out: Vec<u8> = Vec::with_capacity(FUSE_INIT_OUT_SIZE);
    put_u32(&mut out, FUSE_MIN_VERSION);
    assert(out@ =~= bytes::le_bytes(FUSE_MIN_VERSION as nat, 4));
    put_u32(&mut out, FUSE_MIN_MINOR);
    put_u32(&mut out, FUSE_MAX_READ as u32);
    put_zeros(&mut out, 8);
    put_u32(&mut out, FUSE_MAX_READ as u32);
    put_u32(&mut out, 1);
    put_u16(&mut out, 256);
    put_zeros(&mut out, 34);
    proof {
        bytes::lemma_le_bytes_len(FUSE_MIN_VERSION as nat, 4);
        bytes::lemma_le_bytes_len(FUSE_MIN_MINOR as nat, 4);
        bytes::lemma_le_bytes_len(FUSE_MAX_READ as nat, 4);
        bytes::lemma_le_bytes_len(1, 4);
        bytes::lemma_le_bytes_len(256, 2);
    }
    Ok(out)
}

/// What is said of a file system: its block and fragment size, and the longest name.
pub open spec fn statfs_out() -> Seq<u8> {
    bytes::zeros(40) + bytes::le_bytes(4096, 4) + bytes::le_bytes(255, 4) + bytes::le_bytes(4096, 4)
        + bytes::zeros(28)
}

pub fn statfs_reply() -> (out: Vec<u8>)
    ensures
        out@ == statfs_out(),
        out@.len() == FUSE_STATFS_OUT_SIZE,
{
    let mut out: Vec<u8> = Vec::with_capacity(FUSE_STATFS_OUT_SIZE);
    put_zeros(&mut out, 40);
    assert(out@ =~= bytes::zeros(40));
    put_u32(&mut out, 4096);
    put_u32(&mut out, 255);
    put_u32(&mut out, 4096);
    put_zeros(&mut out, 28);
    proof {
        bytes::lemma_le_bytes_len(4096, 4);
        bytes::lemma_le_bytes_len(255, 4);
    }
    out
}

/// What the host knows of a file.
#[derive(Clone, Copy, Debug, PartialEq, Eq, Structural)]
pub struct FileMetadata {
    pub length: u64,
    pub directory: bool,
    pub symlink: bool,
}

/// The mode that the guest sees.
pub open spec fn spec_mode(metadata: FileMetadata) -> u32 {
    if metadata.directory {
        DIRECTORY_MODE
    } else {
        FILE_MODE
    }
}

/// The attributes of a file.
pub open spec fn attr(node_id: u64, metadata: FileMetadata) -> Seq<u8> {
    bytes::le_bytes(node_id as nat, 8) + bytes::le_bytes(metadata.length as nat, 8) + bytes::zeros(
        44,
    ) + bytes::le_bytes(spec_mode(metadata) as nat, 4) + bytes::le_bytes(1, 4) + bytes::zeros(16)
        + bytes::le_bytes(4096, 4)
}

proof fn lemma_attr_len(node_id: u64, metadata: FileMetadata)
    ensures
        attr(node_id, metadata).len() == FUSE_ATTR_SIZE,
{
    bytes::lemma_le_bytes_len(node_id as nat, 8);
    bytes::lemma_le_bytes_len(metadata.length as nat, 8);
    bytes::lemma_le_bytes_len(spec_mode(metadata) as nat, 4);
    bytes::lemma_le_bytes_len(1, 4);
    bytes::lemma_le_bytes_len(4096, 4);
}

/// Where a driver finds the number, the length and the mode of a file.
pub proof fn law_attributes_are_read_back(node_id: u64, metadata: FileMetadata)
    ensures
        attr(node_id, metadata).len() == FUSE_ATTR_SIZE,
        bytes::le_field(attr(node_id, metadata), 0, 8) == node_id,
        bytes::le_field(attr(node_id, metadata), 8, 8) == metadata.length,
        bytes::le_field(attr(node_id, metadata), 60, 4) == spec_mode(metadata),
{
    let b = attr(node_id, metadata);
    lemma_attr_len(node_id, metadata);
    bytes::lemma_limits();
    bytes::lemma_value_of_bytes(node_id as nat, 8);
    bytes::lemma_value_of_bytes(metadata.length as nat, 8);
    bytes::lemma_value_of_bytes(spec_mode(metadata) as nat, 4);
    assert(b.subrange(0, 8) =~= bytes::le_bytes(node_id as nat, 8));
    assert(b.subrange(8, 16) =~= bytes::le_bytes(metadata.length as nat, 8));
    assert(b.subrange(60, 64) =~= bytes::le_bytes(spec_mode(metadata) as nat, 4));
}

pub fn fuse_attr(node_id: u64, metadata: &FileMetadata) -> (out: Vec<u8>)
    ensures
        out@ == attr(node_id, *metadata),
        out@.len() == FUSE_ATTR_SIZE,
{
    let mode: u32 = if metadata.directory {
        DIRECTORY_MODE
    } else {
        FILE_MODE
    };
    let mut out: Vec<u8> = Vec::with_capacity(FUSE_ATTR_SIZE);
    put_u64(&mut out, node_id);
    assert(out@ =~= bytes::le_bytes(node_id as nat, 8));
    put_u64(&mut out, metadata.length);
    put_zeros(&mut out, 44);
    put_u32(&mut out, mode);
    put_u32(&mut out, 1);
    put_zeros(&mut out, 16);
    put_u32(&mut out, 4096);
    proof {
        lemma_attr_len(node_id, *metadata);
    }
    out
}

/// What a lookup that finds a file is answered: its number, how long the answer holds,
/// and its attributes.
pub open spec fn spec_entry_out(node_id: u64, metadata: FileMetadata) -> Seq<u8> {
    bytes::le_bytes(node_id as nat, 8) + bytes::zeros(8) + bytes::le_bytes(1, 8) + bytes::le_bytes(
        1,
        8,
    ) + bytes::zeros(8) + attr(node_id, metadata)
}

pub fn entry_out(node_id: u64, metadata: &FileMetadata) -> (out: Vec<u8>)
    ensures
        out@ == spec_entry_out(node_id, *metadata),
        out@.len() == FUSE_ENTRY_OUT_SIZE,
{
    let mut out: Vec<u8> = Vec::with_capacity(FUSE_ENTRY_OUT_SIZE);
    put_u64(&mut out, node_id);
    assert(out@ =~= bytes::le_bytes(node_id as nat, 8));
    put_zeros(&mut out, 8);
    put_u64(&mut out, 1);
    put_u64(&mut out, 1);
    put_zeros(&mut out, 8);
    let attributes = fuse_attr(node_id, metadata);
    put_slice(&mut out, attributes.as_slice());
    proof {
        bytes::lemma_le_bytes_len(node_id as nat, 8);
        bytes::lemma_le_bytes_len(1, 8);
    }
    out
}

/// What a request for attributes is answered: how long they hold, and the attributes.
pub open spec fn spec_attr_out(node_id: u64, metadata: FileMetadata) -> Seq<u8> {
    bytes::le_bytes(1, 8) + bytes::zeros(8) + attr(node_id, metadata)
}

pub fn attr_out(node_id: u64, metadata: &FileMetadata) -> (out: Vec<u8>)
    ensures
        out@ == spec_attr_out(node_id, *metadata),
        out@.len() == FUSE_ATTR_OUT_SIZE,
{
    let mut out: Vec<u8> = Vec::with_capacity(FUSE_ATTR_OUT_SIZE);
    put_u64(&mut out, 1);
    assert(out@ =~= bytes::le_bytes(1, 8));
    put_zeros(&mut out, 8);
    let attributes = fuse_attr(node_id, metadata);
    put_slice(&mut out, attributes.as_slice());
    proof {
        bytes::lemma_le_bytes_len(1, 8);
    }
    out
}

/// What a request to open a file is answered: the handle is the file's number.
pub open spec fn spec_open_out(node_id: u64) -> Seq<u8> {
    bytes::le_bytes(node_id as nat, 8) + bytes::zeros(8)
}

pub fn open_out(node_id: u64) -> (out: Vec<u8>)
    ensures
        out@ == spec_open_out(node_id),
        out@.len() == FUSE_OPEN_OUT_SIZE,
{
    let mut out: Vec<u8> = Vec::with_capacity(FUSE_OPEN_OUT_SIZE);
    put_u64(&mut out, node_id);
    assert(out@ =~= bytes::le_bytes(node_id as nat, 8));
    put_zeros(&mut out, 8);
    proof {
        bytes::lemma_le_bytes_len(node_id as nat, 8);
    }
    out
}

/// How many zero bytes bring `length` to a multiple of eight.
pub open spec fn padding(length: nat) -> nat {
    ((8 - length % 8) % 8) as nat
}

/// A directory record: the number of the entry, where the next record starts, and the
/// name, padded with zeros.
pub open spec fn spec_dirent(node_id: u64, offset: u64, name: Seq<u8>, metadata: FileMetadata) -> Seq<
    u8,
> {
    bytes::le_bytes(node_id as nat, 8) + bytes::le_bytes(offset as nat, 8) + bytes::le_bytes(
        name.len(),
        4,
    ) + bytes::le_bytes(
        (if metadata.directory {
            DIRECTORY_KIND
        } else {
            FILE_KIND
        }) as nat,
        4,
    ) + name + bytes::zeros(padding(name.len()))
}

/// The length of a directory record.
pub open spec fn dirent_length(name: Seq<u8>) -> nat {
    DIRENT_HEADER_SIZE as nat + name.len() + padding(name.len())
}

/// A directory record has the length that is stated for it, a multiple of eight, and a
/// driver finds the number of the entry, the next offset, the length of the name and
/// the name in their places.
pub proof fn law_dirent_is_read_back(
    node_id: u64,
    offset: u64,
    name: Seq<u8>,
    metadata: FileMetadata,
)
    requires
        name.len() <= u32::MAX,
    ensures
        spec_dirent(node_id, offset, name, metadata).len() == dirent_length(name),
        dirent_length(name) % 8 == 0,
        bytes::le_field(spec_dirent(node_id, offset, name, metadata), 0, 8) == node_id,
        bytes::le_field(spec_dirent(node_id, offset, name, metadata), 8, 8) == offset,
        bytes::le_field(spec_dirent(node_id, offset, name, metadata), 16, 4) == name.len(),
        spec_dirent(node_id, offset, name, metadata).subrange(
            DIRENT_HEADER_SIZE as int,
            DIRENT_HEADER_SIZE + name.len(),
        ) == name,
{
    let b = spec_dirent(node_id, offset, name, metadata);
    let kind = (if metadata.directory {
        DIRECTORY_KIND
    } else {
        FILE_KIND
    }) as nat;
    bytes::lemma_limits();
    bytes::lemma_value_of_bytes(node_id as nat, 8);
    bytes::lemma_value_of_bytes(offset as nat, 8);
    bytes::lemma_value_of_bytes(name.len(), 4);
    bytes::lemma_le_bytes_len(kind, 4);
    assert(b.subrange(0, 8) =~= bytes::le_bytes(node_id as nat, 8));
    assert(b.subrange(8, 16) =~= bytes::le_bytes(offset as nat, 8));
    assert(b.subrange(16, 20) =~= bytes::le_bytes(name.len(), 4));
    assert(b.subrange(DIRENT_HEADER_SIZE as int, DIRENT_HEADER_SIZE + name.len()) =~= name);
}

/// What making a directory record gives.
pub open spec fn dirent_result(
    node_id: u64,
    offset: u64,
    name: Seq<u8>,
    metadata: FileMetadata,
) -> Result<Seq<u8>, DeviceError> {
    if name.len() > u32::MAX {
        Err(DeviceError::Descriptor("directory name too long"))
    } else if DIRENT_HEADER_SIZE + name.len() + 7 > usize::MAX {
        Err(DeviceError::Descriptor("directory entry overflow"))
    } else {
        Ok(spec_dirent(node_id, offset, name, metadata))
    }
}

pub fn dirent(node_id: u64, offset: u64, name: &str, metadata: &FileMetadata) -> (result: Result<
    Vec<u8>,
    DeviceError,
>)
    ensures
        body_of(result) == dirent_result(node_id, offset, vstd::utf8::encode_utf8(name@), *metadata),
{
    let text = name.as_bytes();
    if text.len() as u64 > u32::MAX as u64 {
        return Err(DeviceError::Descriptor("directory name too long"));
    }
    let raw_length: usize = match DIRENT_HEADER_SIZE.checked_add(text.len()) {
        Some(length) => length,
        None => {
            return Err(DeviceError::Descriptor("directory entry overflow"));
        },
    };
    let length: usize = match raw_length.checked_add(7) {
        Some(length) => length / 8 * 8,
        None => {
            return Err(DeviceError::Descriptor("directory entry overflow"));
        },
    };
    let kind: u32 = if metadata.directory {
        DIRECTORY_KIND
    } else {
        FILE_KIND
    };
    let mut out: Vec<u8> = Vec::with_capacity(length);
    put_u64(&mut out, node_id);
    assert(out@ =~= bytes::le_bytes(node_id as nat, 8));
    put_u64(&mut out, offset);
    put_u32(&mut out, text.len() as u32);
    put_u32(&mut out, kind);
    put_slice(&mut out, text);
    put_zeros(&mut out, length - raw_length);
    Ok(out)
}

/// The answer to a request that was met.
pub open spec fn success(unique: u64, body: Seq<u8>) -> Seq<u8> {
    bytes::le_bytes(FUSE_OUT_HEADER_SIZE as nat + body.len(), 4) + bytes::le_bytes(0, 4)
        + bytes::le_bytes(unique as nat, 8) + body
}

pub fn success_reply(unique: u64, body: &[u8]) -> (out: Vec<u8>)
    requires
        FUSE_OUT_HEADER_SIZE + body@.len() <= u32::MAX,
    ensures
        out@ == success(unique, body@),
{
    assert(body.len() <= u32::MAX - FUSE_OUT_HEADER_SIZE);
    let length: u32 = FUSE_OUT_HEADER_SIZE as u32 + body.len() as u32;
    let mut out: Vec<u8> = Vec::new();
    put_u32(&mut out, length);
    assert(out@ =~= bytes::le_bytes(length as nat, 4));
    put_u32(&mut out, 0);
    put_u64(&mut out, unique);
    put_slice(&mut out, body);
    out
}

/// The two's complement of an error code, in 32 bits.
pub open spec fn negated(code: i32) -> nat {
    if code > 0 {
        (0x1_0000_0000 - code) as nat
    } else {
        (-code) as nat
    }
}

/// The answer to a request that failed.
pub open spec fn failure(unique: u64, code: i32) -> Seq<u8> {
    bytes::le_bytes(FUSE_OUT_HEADER_SIZE as nat, 4) + bytes::le_bytes(negated(code), 4)
        + bytes::le_bytes(unique as nat, 8)
}

pub fn error_reply(unique: u64, error: i32) -> (out: Vec<u8>)
    ensures
        out@ == failure(unique, error),
        out@.len() == FUSE_OUT_HEADER_SIZE,
{
    let word: u32 = if error > 0 {
        (0x1_0000_0000u64 - error as u64) as u32
    } else {
        (0i64 - error as i64) as u32
    };
    let mut out: Vec<u8> = Vec::with_capacity(FUSE_OUT_HEADER_SIZE);
    put_u32(&mut out, FUSE_OUT_HEADER_SIZE as u32);
    assert(out@ =~= bytes::le_bytes(FUSE_OUT_HEADER_SIZE as nat, 4));
    put_u32(&mut out, word);
    put_u64(&mut out, unique);
    proof {
        bytes::lemma_le_bytes_len(FUSE_OUT_HEADER_SIZE as nat, 4);
        bytes::lemma_le_bytes_len(negated(error), 4);
        bytes::lemma_le_bytes_len(unique as nat, 8);
    }
    out
}

/// The codes by which the host's C library tells errors apart.
#[derive(Clone, Copy, Debug, PartialEq, Eq, Structural)]
pub struct ErrorCodes {
    pub invalid: i32,
    pub io: i32,
    pub fault: i32,
    pub unsupported: i32,
}

/// Reads `libc::EINVAL`, `libc::EIO`, `libc::EFAULT` and `libc::ENOSYS`.  The numbers
/// depend on the host and are left unsaid; on every host they differ from zero and from
/// one another.
#[verifier::external_body]
fn host_codes() -> (codes: ErrorCodes)
    ensures
        codes.wf(),
{
    ErrorCodes {
        invalid: libc::EINVAL,
        io: libc::EIO,
        fault: libc::EFAULT,
        unsupported: libc::ENOSYS,
    }
}

impl ErrorCodes {
    /// No error has the code of success, and no two have the same code.
    pub open spec fn wf(self) -> bool {
        &&& self.invalid != 0 && self.io != 0 && self.fault != 0 && self.unsupported != 0
        &&& self.invalid != self.io && self.invalid != self.fault
        &&& self.invalid != self.unsupported && self.io != self.fault
        &&& self.io != self.unsupported && self.fault != self.unsupported
    }

    /// The codes of this host.
    pub fn host() -> (codes: Self)
        ensures
            codes.wf(),
    {
        host_codes()
    }
}

/// The code that the guest is told for an error.
pub open spec fn spec_errno(error: DeviceError, codes: ErrorCodes) -> i32 {
    match error {
        DeviceError::Io(IoError::Os { code, .. }) => code,
        DeviceError::Io(_) => codes.io,
        DeviceError::Descriptor(_) => codes.invalid,
        DeviceError::InvalidLayout(_) => codes.invalid,
        DeviceError::DmaRange { .. } => codes.fault,
        DeviceError::DmaAlignment { .. } => codes.fault,
        DeviceError::Down(_) => codes.io,
        DeviceError::InvalidQueue { .. } => codes.io,
        DeviceError::Worker(_) => codes.io,
    }
}

pub fn fuse_errno(error: &DeviceError, codes: &ErrorCodes) -> (code: i32)
    ensures
        code == spec_errno(*error, *codes),
{
    match error {
        DeviceError::Io(error) => match error.raw_os_error() {
            Some(code) => code,
            None => codes.io,
        },
        DeviceError::Descriptor(_) => codes.invalid,
        DeviceError::InvalidLayout(_) => codes.invalid,
        DeviceError::DmaRange { .. } => codes.fault,
        DeviceError::DmaAlignment { .. } => codes.fault,
        DeviceError::Down(_) => codes.io,
        DeviceError::InvalidQueue { .. } => codes.io,
        DeviceError::Worker(_) => codes.io,
    }
}

/// The answer to a request, as it was met or not.
pub open spec fn answer(unique: u64, codes: ErrorCodes, result: Result<Seq<u8>, DeviceError>) -> Seq<
    u8,
> {
    match result {
        Ok(body) => success(unique, body),
        Err(error) => failure(unique, spec_errno(error, codes)),
    }
}

pub fn reply(unique: u64, codes: &ErrorCodes, result: &Result<Vec<u8>, DeviceError>) -> (out: Vec<
    u8,
>)
    requires
        result matches Ok(body) ==> FUSE_OUT_HEADER_SIZE + body@.len() <= u32::MAX,
    ensures
        out@ == answer(unique, *codes, body_of(*result)),
{
    match result {
        Ok(body) => success_reply(unique, body.as_slice()),
        Err(error) => error_reply(unique, fuse_errno(error, codes)),
    }
}

/// A driver finds the length of an answer, the number of the request and the body in
/// their places, and tells a failure from a success by the word between.
pub proof fn law_answer_is_read_back(
    unique: u64,
    codes: ErrorCodes,
    result: Result<Seq<u8>, DeviceError>,
)
    requires
        result matches Ok(body) ==> FUSE_OUT_HEADER_SIZE + body.len() <= u32::MAX,
    ensures
        ({
            let b = answer(unique, codes, result);
            &&& bytes::le_field(b, 0, 4) == b.len()
            &&& bytes::le_field(b, 8, 8) == unique
            &&& match result {
                Ok(body) => {
                    &&& bytes::le_field(b, 4, 4) == 0
                    &&& b.subrange(FUSE_OUT_HEADER_SIZE as int, b.len() as int) == body
                },
                Err(error) => {
                    &&& bytes::le_field(b, 4, 4) == negated(spec_errno(error, codes))
                    &&& b.len() == FUSE_OUT_HEADER_SIZE
                },
            }
        }),
{
    let b = answer(unique, codes, result);
    let length = match result {
        Ok(body) => FUSE_OUT_HEADER_SIZE as nat + body.len(),
        Err(_) => FUSE_OUT_HEADER_SIZE as nat,
    };
    let word = match result {
        Ok(_) => 0nat,
        Err(error) => negated(spec_errno(error, codes)),
    };
    bytes::lemma_limits();
    bytes::lemma_value_of_bytes(length, 4);
    bytes::lemma_value_of_bytes(word, 4);
    bytes::lemma_value_of_bytes(unique as nat, 8);
    assert(b.subrange(0, 4) =~= bytes::le_bytes(length, 4));
    assert(b.subrange(4, 8) =~= bytes::le_bytes(word, 4));
    assert(b.subrange(8, 16) =~= bytes::le_bytes(unique as nat, 8));
    if let Ok(body) = result {
        assert(b.subrange(FUSE_OUT_HEADER_SIZE as int, b.len() as int) =~= body);
    }
}

/// Whether 88 bytes are the attributes of a file: its number, its length, the mode of a directory
/// that anybody may list or of a file that anybody may read, one link, blocks of 4096 bytes, and
/// zeros everywhere else.
pub open spec fn describes(b: Seq<u8>, node_id: u64, metadata: FileMetadata) -> bool {
    &&& b.len() == 88
    &&& bytes::le_field(b, 0, 8) == node_id
    &&& bytes::le_field(b, 8, 8) == metadata.length
    &&& metadata.directory ==> bytes::le_field(b, 60, 4) == 0o040555
    &&& !metadata.directory ==> bytes::le_field(b, 60, 4) == 0o100444
    &&& bytes::le_field(b, 64, 4) == 1
    &&& bytes::le_field(b, 84, 4) == 4096
    &&& forall|k: int| 16 <= k < 60 || 68 <= k < 84 ==> #[trigger] b[k] == 0
}

proof fn lemma_describes(node_id: u64, metadata: FileMetadata)
    ensures
        describes(attr(node_id, metadata), node_id, metadata),
{
    let b = attr(node_id, metadata);
    law_attributes_are_read_back(node_id, metadata);
    bytes::lemma_limits();
    bytes::lemma_value_of_bytes(1, 4);
    bytes::lemma_value_of_bytes(4096, 4);
    bytes::lemma_le_bytes_len(node_id as nat, 8);
    bytes::lemma_le_bytes_len(metadata.length as nat, 8);
    bytes::lemma_le_bytes_len(spec_mode(metadata) as nat, 4);
    assert(b.subrange(64, 68) =~= bytes::le_bytes(1, 4));
    assert(b.subrange(84, 88) =~= bytes::le_bytes(4096, 4));
}

/// A driver that asks for the attributes of a file is told for how long they hold, one second,
/// and, from byte 16 on, the attributes of the very file that the host found.
pub proof fn law_attributes_are_answered(node_id: u64, metadata: FileMetadata)
    ensures
        ({
            let b = spec_attr_out(node_id, metadata);
            &&& b.len() == 104
            &&& bytes::le_field(b, 0, 8) == 1
            &&& forall|k: int| 8 <= k < 16 ==> #[trigger] b[k] == 0
            &&& describes(b.subrange(16, 104), node_id, metadata)
        }),
{
    let b = spec_attr_out(node_id, metadata);
    lemma_describes(node_id, metadata);
    bytes::lemma_limits();
    bytes::lemma_value_of_bytes(1, 8);
    assert(b.subrange(0, 8) =~= bytes::le_bytes(1, 8));
    assert(b.subrange(16, 104) =~= attr(node_id, metadata));
}

/// A driver that looks a file up is told its number, for how long the answer and the attributes
/// hold, one second each, and, from byte 40 on, the attributes of the very file that the host
/// found: the same 88 bytes that a request for its attributes is answered with.
pub proof fn law_entries_are_answered(node_id: u64, metadata: FileMetadata)
    ensures
        ({
            let b = spec_entry_out(node_id, metadata);
            &&& b.len() == 128
            &&& bytes::le_field(b, 0, 8) == node_id
            &&& bytes::le_field(b, 16, 8) == 1
            &&& bytes::le_field(b, 24, 8) == 1
            &&& forall|k: int| 8 <= k < 16 || 32 <= k < 40 ==> #[trigger] b[k] == 0
            &&& describes(b.subrange(40, 128), node_id, metadata)
            &&& b.subrange(40, 128) == spec_attr_out(node_id, metadata).subrange(16, 104)
        }),
{
    let b = spec_entry_out(node_id, metadata);
    lemma_describes(node_id, metadata);
    bytes::lemma_limits();
    bytes::lemma_value_of_bytes(node_id as nat, 8);
    bytes::lemma_value_of_bytes(1, 8);
    assert(b.subrange(0, 8) =~= bytes::le_bytes(node_id as nat, 8));
    assert(b.subrange(16, 24) =~= bytes::le_bytes(1, 8));
    assert(b.subrange(24, 32) =~= bytes::le_bytes(1, 8));
    assert(b.subrange(40, 128) =~= attr(node_id, metadata));
    assert(spec_attr_out(node_id, metadata).subrange(16, 104) =~= attr(node_id, metadata));
}

/// A driver that opens a file is given the file's number as its handle, and nothing else.
pub proof fn law_handles_are_numbers(node_id: u64)
    ensures
        spec_open_out(node_id).len() == 16,
        bytes::le_field(spec_open_out(node_id), 0, 8) == node_id,
        forall|k: int| 8 <= k < 16 ==> #[trigger] spec_open_out(node_id)[k] == 0,
{
    let b = spec_open_out(node_id);
    bytes::lemma_limits();
    bytes::lemma_value_of_bytes(node_id as nat, 8);
    assert(b.subrange(0, 8) =~= bytes::le_bytes(node_id as nat, 8));
}

/// A handshake is met exactly if its request has at least sixteen bytes and the major version
/// seven; the answer names version 7.31, reads and writes of one megabyte, times of a
/// nanosecond's grain and 256 pages, and says nothing else.
pub proof fn law_handshakes(payload: Seq<u8>)
    ensures
        spec_init_reply(payload) is Ok <==> payload.len() >= 16 && bytes::le_field(payload, 0, 4)
            == 7,
        spec_init_reply(payload) matches Ok(b) ==> {
            &&& b.len() == 64
            &&& bytes::le_field(b, 0, 4) == 7
            &&& bytes::le_field(b, 4, 4) == 31
            &&& bytes::le_field(b, 8, 4) == 0x10_0000
            &&& bytes::le_field(b, 20, 4) == 0x10_0000
            &&& bytes::le_field(b, 24, 4) == 1
            &&& bytes::le_field(b, 28, 2) == 256
            &&& forall|k: int| 12 <= k < 20 || 30 <= k < 64 ==> #[trigger] b[k] == 0
        },
        spec_init_reply(payload) matches Err(error) ==> error is Descriptor,
{
    let b = init_out();
    bytes::lemma_limits();
    bytes::lemma_value_of_bytes(7, 4);
    bytes::lemma_value_of_bytes(31, 4);
    bytes::lemma_value_of_bytes(0x10_0000, 4);
    bytes::lemma_value_of_bytes(1, 4);
    bytes::lemma_value_of_bytes(256, 2);
    assert(b.subrange(0, 4) =~= bytes::le_bytes(7, 4));
    assert(b.subrange(4, 8) =~= bytes::le_bytes(31, 4));
    assert(b.subrange(8, 12) =~= bytes::le_bytes(0x10_0000, 4));
    assert(b.subrange(20, 24) =~= bytes::le_bytes(0x10_0000, 4));
    assert(b.subrange(24, 28) =~= bytes::le_bytes(1, 4));
    assert(b.subrange(28, 30) =~= bytes::le_bytes(256, 2));
}

/// Of the file system a driver is told the size of blocks and fragments, 4096 bytes, and the
/// longest name, 255 bytes, and nothing else.
pub proof fn law_file_system_is_described()
    ensures
        ({
            let b = statfs_out();
            &&& b.len() == 80
            &&& bytes::le_field(b, 40, 4) == 4096
            &&& bytes::le_field(b, 44, 4) == 255
            &&& bytes::le_field(b, 48, 4) == 4096
            &&& forall|k: int| 0 <= k < 40 || 52 <= k < 80 ==> #[trigger] b[k] == 0
        }),
{
    let b = statfs_out();
    bytes::lemma_limits();
    bytes::lemma_value_of_bytes(4096, 4);
    bytes::lemma_value_of_bytes(255, 4);
    assert(b.subrange(40, 44) =~= bytes::le_bytes(4096, 4));
    assert(b.subrange(44, 48) =~= bytes::le_bytes(255, 4));
    assert(b.subrange(48, 52) =~= bytes::le_bytes(4096, 4));
}

/// A record of a directory is made of every name that it can count, and has the kind four for a
/// directory and eight for a file, the name behind 24 bytes, and behind the name fewer than eight
/// zeros, up to a multiple of eight.
pub proof fn law_records(node_id: u64, offset: u64, name: Seq<u8>, metadata: FileMetadata)
    requires
        name.len() <= u32::MAX,
        24 + name.len() + 7 <= usize::MAX,
    ensures
        dirent_result(node_id, offset, name, metadata) is Ok,
        ({
            let b = dirent_result(node_id, offset, name, metadata)->Ok_0;
            &&& b.len() % 8 == 0
            &&& 24 + name.len() <= b.len() < 24 + name.len() + 8
            &&& bytes::le_field(b, 0, 8) == node_id
            &&& bytes::le_field(b, 8, 8) == offset
            &&& bytes::le_field(b, 16, 4) == name.len()
            &&& metadata.directory ==> bytes::le_field(b, 20, 4) == 4
            &&& !metadata.directory ==> bytes::le_field(b, 20, 4) == 8
            &&& b.subrange(24, 24 + name.len() as int) == name
            &&& forall|k: int| 24 + name.len() <= k < b.len() ==> #[trigger] b[k] == 0
        }),
{
    let b = spec_dirent(node_id, offset, name, metadata);
    let kind = (if metadata.directory {
        DIRECTORY_KIND
    } else {
        FILE_KIND
    }) as nat;
    law_dirent_is_read_back(node_id, offset, name, metadata);
    bytes::lemma_limits();
    bytes::lemma_le_bytes_len(node_id as nat, 8);
    bytes::lemma_le_bytes_len(offset as nat, 8);
    bytes::lemma_le_bytes_len(name.len(), 4);
    bytes::lemma_value_of_bytes(kind, 4);
    assert(b.subrange(20, 24) =~= bytes::le_bytes(kind, 4));
}

/// A request's header has the length in its first four bytes, then the opcode, the number of the
/// request and the number of the file.
pub proof fn law_request_headers(length: u32, opcode: u32, unique: u64, node_id: u64, rest: Seq<u8>)
    ensures
        FuseInHeader::of(
            bytes::le_bytes(length as nat, 4) + bytes::le_bytes(opcode as nat, 4)
                + bytes::le_bytes(unique as nat, 8) + bytes::le_bytes(node_id as nat, 8) + rest,
        ) == (FuseInHeader { length, opcode, unique, node_id }),
{
    let b = bytes::le_bytes(length as nat, 4) + bytes::le_bytes(opcode as nat, 4)
        + bytes::le_bytes(unique as nat, 8) + bytes::le_bytes(node_id as nat, 8) + rest;
    bytes::lemma_limits();
    bytes::lemma_value_of_bytes(length as nat, 4);
    bytes::lemma_value_of_bytes(opcode as nat, 4);
    bytes::lemma_value_of_bytes(unique as nat, 8);
    bytes::lemma_value_of_bytes(node_id as nat, 8);
    assert(b.subrange(0, 4) =~= bytes::le_bytes(length as nat, 4));
    assert(b.subrange(4, 8) =~= bytes::le_bytes(opcode as nat, 4));
    assert(b.subrange(8, 16) =~= bytes::le_bytes(unique as nat, 8));
    assert(b.subrange(16, 24) =~= bytes::le_bytes(node_id as nat, 8));
}

/// What an error is told by: an error of the host by its own number, a request that is malformed
/// by the code for that, memory that cannot be touched by the code for that, and everything else
/// as an I/O error.
pub proof fn law_errors_are_told_apart(error: DeviceError, codes: ErrorCodes)
    ensures
        error is Descriptor || error is InvalidLayout ==> spec_errno(error, codes)
            == codes.invalid,
        error is DmaRange || error is DmaAlignment ==> spec_errno(error, codes) == codes.fault,
        error is Down || error is InvalidQueue || error is Worker ==> spec_errno(error, codes)
            == codes.io,
        error matches DeviceError::Io(failure) ==> spec_errno(error, codes) == match failure {
            IoError::Os { code, text } => code,
            _ => codes.io,
        },
{
}

/// A failed request is answered with sixteen bytes: their number, the code with its sign turned,
/// in 32 bits, and the number of the request.
pub proof fn law_failures_are_answered(unique: u64, code: i32)
    ensures
        ({
            let b = failure(unique, code);
            &&& b.len() == 16
            &&& bytes::le_field(b, 0, 4) == 16
            &&& (bytes::le_field(b, 4, 4) + code) % 0x1_0000_0000 == 0
            &&& bytes::le_field(b, 8, 8) == unique
        }),
{
    let b = failure(unique, code);
    bytes::lemma_limits();
    bytes::lemma_value_of_bytes(16, 4);
    bytes::lemma_value_of_bytes(negated(code), 4);
    bytes::lemma_value_of_bytes(unique as nat, 8);
    assert(b.subrange(0, 4) =~= bytes::le_bytes(16, 4));
    assert(b.subrange(4, 8) =~= bytes::le_bytes(negated(code), 4));
    assert(b.subrange(8, 16) =~= bytes::le_bytes(unique as nat, 8));
}

/// A request that was met is answered with sixteen bytes and then the body: the number of all
/// bytes, a zero, and the number of the request.
pub proof fn law_successes_are_answered(unique: u64, body: Seq<u8>)
    requires
        16 + body.len() <= u32::MAX,
    ensures
        ({
            let b = success(unique, body);
            &&& b.len() == 16 + body.len()
            &&& bytes::le_field(b, 0, 4) == 16 + body.len()
            &&& bytes::le_field(b, 4, 4) == 0
            &&& bytes::le_field(b, 8, 8) == unique
            &&& b.skip(16) == body
        }),
{
    let b = success(unique, body);
    bytes::lemma_limits();
    bytes::lemma_value_of_bytes(16 + body.len(), 4);
    bytes::lemma_value_of_bytes(0, 4);
    bytes::lemma_value_of_bytes(unique as nat, 8);
    assert(b.subrange(0, 4) =~= bytes::le_bytes(16 + body.len(), 4));
    assert(b.subrange(4, 8) =~= bytes::le_bytes(0, 4));
    assert(b.subrange(8, 16) =~= bytes::le_bytes(unique as nat, 8));
    assert(b.skip(16) =~= body);
}

/// An answer is that of a success with the body, or that of a failure with the error's code.
pub proof fn law_answers(unique: u64, codes: ErrorCodes, body: Seq<u8>, error: DeviceError)
    ensures
        answer(unique, codes, Ok(body)) == success(unique, body),
        answer(unique, codes, Err(error)) == failure(unique, spec_errno(error, codes)),
{
}

/// A field is read of a request exactly if the request has all of its bytes.
pub proof fn law_fields_are_read(bytes: Seq<u8>, offset: usize, width: int)
    requires
        0 <= width,
    ensures
        field(bytes, offset, width) is Ok <==> offset + width <= bytes.len() && offset + width
            <= usize::MAX,
        field(bytes, offset, width) is Ok ==> field(bytes, offset, width) == Ok::<nat, DeviceError>(
            bytes::le_value(bytes.subrange(offset as int, offset + width)),
        ),
{
}

/// The numbers of the FUSE protocol, and the sizes of its messages.
pub proof fn law_fuse_numbers()
    ensures
        FUSE_ROOT_ID == 1,
        FUSE_LOOKUP == 1,
        FUSE_FORGET == 2,
        FUSE_GETATTR == 3,
        FUSE_OPEN == 14,
        FUSE_READ == 15,
        FUSE_STATFS == 17,
        FUSE_RELEASE == 18,
        FUSE_INIT == 26,
        FUSE_OPENDIR == 27,
        FUSE_READDIR == 28,
        FUSE_RELEASEDIR == 29,
        FUSE_DESTROY == 38,
        FUSE_IN_HEADER_SIZE == 40,
        FUSE_OUT_HEADER_SIZE == 16,
        FUSE_INIT_OUT_SIZE == 64,
        FUSE_ATTR_SIZE == 88,
        FUSE_ENTRY_OUT_SIZE == 128,
        FUSE_ATTR_OUT_SIZE == 104,
        FUSE_OPEN_OUT_SIZE == 16,
        FUSE_STATFS_OUT_SIZE == 80,
        FUSE_MIN_VERSION == 7,
        FUSE_MIN_MINOR == 31,
        FUSE_MAX_READ == 1_048_576,
        DIRENT_HEADER_SIZE == 24,
        DIRECTORY_MODE == 0o040555,
        FILE_MODE == 0o100444,
        DIRECTORY_KIND == 4,
        FILE_KIND == 8,
{
}

} // verus!
