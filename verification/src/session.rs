//! What virtio-fs does with a FUSE request: which file operation of the host it takes,
//! and how the guest is answered once the host has carried it out.

use vstd::prelude::*;

use crate::bytes;
use crate::error::{DeviceError, IoError};
use crate::fuse;
use crate::fuse::{
    attr_out, dirent, entry_out, error_reply, init_reply, open_out, read_u32, read_u64, reply,
    statfs_reply, success_reply, ErrorCodes, FileMetadata, FuseInHeader, FUSE_DESTROY, FUSE_FORGET,
    FUSE_GETATTR, FUSE_INIT, FUSE_IN_HEADER_SIZE, FUSE_LOOKUP, FUSE_MAX_READ, FUSE_OPEN,
    FUSE_OPENDIR, FUSE_OUT_HEADER_SIZE, FUSE_READ, FUSE_READDIR, FUSE_RELEASE, FUSE_RELEASEDIR,
    FUSE_STATFS,
};
use crate::inodes;
use crate::inodes::{ancestors, check_entry_name, child_path, FsInodes, Inodes};

verus! {

/// What a request comes to: an answer, or an operation of the host on a file below the
/// exported directory.  The host looks at each directory on the `way` to the `path`, from
/// the top, and at the `path`.
#[derive(Debug)]
pub enum FsStep {
    /// The request is answered; an empty answer means that none is expected.
    Reply(Vec<u8>),
    /// The metadata of `path` is wanted, for `lookup_reply()`.
    Lookup { unique: u64, way: Vec<String>, path: String },
    /// The metadata of `path` is wanted, for `getattr_reply()`.
    GetAttr { unique: u64, node_id: u64, way: Vec<String>, path: String },
    /// The metadata of `path` is wanted, for `open_reply()`.
    Open { unique: u64, node_id: u64, way: Vec<String>, path: String },
    /// The metadata of `path` is wanted, and, if that is plain, at most `size` bytes of it
    /// from `offset` on, for `read_reply()`.
    Read { unique: u64, way: Vec<String>, path: String, offset: u64, size: usize },
    /// The metadata and the entries of `path` are wanted, for `FsListing`.
    ReadDir { unique: u64, way: Vec<String>, path: String, offset: u64, maximum: usize },
}

/// What a request comes to.
pub enum Step {
    Reply(Seq<u8>),
    Lookup { unique: u64, way: Seq<Seq<char>>, path: Seq<char> },
    GetAttr { unique: u64, node_id: u64, way: Seq<Seq<char>>, path: Seq<char> },
    Open { unique: u64, node_id: u64, way: Seq<Seq<char>>, path: Seq<char> },
    Read { unique: u64, way: Seq<Seq<char>>, path: Seq<char>, offset: u64, size: nat },
    ReadDir { unique: u64, way: Seq<Seq<char>>, path: Seq<char>, offset: u64, maximum: nat },
}

impl View for FsStep {
    type V = Step;

    open spec fn view(&self) -> Step {
        match *self {
            FsStep::Reply(bytes) => Step::Reply(bytes@),
            FsStep::Lookup { unique, way, path } => Step::Lookup {
                unique,
                way: inodes::texts(way@),
                path: path@,
            },
            FsStep::GetAttr { unique, node_id, way, path } => Step::GetAttr {
                unique,
                node_id,
                way: inodes::texts(way@),
                path: path@,
            },
            FsStep::Open { unique, node_id, way, path } => Step::Open {
                unique,
                node_id,
                way: inodes::texts(way@),
                path: path@,
            },
            FsStep::Read { unique, way, path, offset, size } => Step::Read {
                unique,
                way: inodes::texts(way@),
                path: path@,
                offset,
                size: size as nat,
            },
            FsStep::ReadDir { unique, way, path, offset, maximum } => Step::ReadDir {
                unique,
                way: inodes::texts(way@),
                path: path@,
                offset,
                maximum: maximum as nat,
            },
        }
    }
}

/// A step as what it stands for.
pub open spec fn step_of(result: Result<FsStep, DeviceError>) -> Result<Step, DeviceError> {
    match result {
        Ok(step) => Ok(step@),
        Err(error) => Err(error),
    }
}

/// Calls `std::str::from_utf8`: bytes that are UTF-8 are the text they encode, and
/// others are no text.
#[verifier::external_body]
fn utf8_text(bytes: &[u8]) -> (text: Option<&str>)
    ensures
        match text {
            Some(text) => vstd::utf8::valid_utf8(bytes@) && text@ == vstd::utf8::decode_utf8(
                bytes@,
            ),
            None => !vstd::utf8::valid_utf8(bytes@),
        },
{
    std::str::from_utf8(bytes).ok()
}

/// The known files, or why they cannot be had.
pub open spec fn table_of(inodes: Result<&FsInodes, DeviceError>) -> Result<Inodes, DeviceError> {
    match inodes {
        Ok(inodes) => Ok(inodes@),
        Err(error) => Err(error),
    }
}

/// The path of what is looked up below `parent`.  The name is judged before the known
/// files are asked for.
pub open spec fn looked_up(
    table: Result<Inodes, DeviceError>,
    parent: u64,
    payload: Seq<u8>,
) -> Result<Seq<char>, DeviceError> {
    let text = payload.drop_last();
    let name = vstd::utf8::decode_utf8(text);
    if payload.len() == 0 || payload.last() != 0 {
        Err(DeviceError::Descriptor("FUSE_LOOKUP name is not NUL terminated"))
    } else if !vstd::utf8::valid_utf8(text) {
        Err(DeviceError::Descriptor("FUSE_LOOKUP name is not UTF-8"))
    } else if !inodes::is_entry_name(name) {
        Err(DeviceError::Descriptor("unsafe FUSE_LOOKUP name"))
    } else {
        match table {
            Err(error) => Err(error),
            Ok(inodes) => if !inodes.paths.contains_key(parent) {
                Err(DeviceError::Descriptor("unknown FUSE parent inode"))
            } else {
                Ok(inodes::spec_child_path(inodes.paths[parent], name))
            },
        }
    }
}

/// The path of what is looked up below `parent`.
pub fn lookup_path(
    inodes: Result<&FsInodes, DeviceError>,
    parent: u64,
    payload: &[u8],
) -> (result: Result<String, DeviceError>)
    ensures
        match result {
            Ok(path) => looked_up(table_of(inodes), parent, payload@) == Ok::<
                Seq<char>,
                DeviceError,
            >(path@),
            Err(error) => looked_up(table_of(inodes), parent, payload@) == Err::<
                Seq<char>,
                DeviceError,
            >(error),
        },
{
    if payload.len() == 0 || payload[payload.len() - 1] != 0 {
        return Err(DeviceError::Descriptor("FUSE_LOOKUP name is not NUL terminated"));
    }
    let text = vstd::slice::slice_subrange(payload, 0, payload.len() - 1);
    proof {
        assert(text@ =~= payload@.drop_last());
    }
    let name = match utf8_text(text) {
        Some(name) => name,
        None => {
            return Err(DeviceError::Descriptor("FUSE_LOOKUP name is not UTF-8"));
        },
    };
    if !check_entry_name(name) {
        return Err(DeviceError::Descriptor("unsafe FUSE_LOOKUP name"));
    }
    match inodes?.path(parent) {
        None => Err(DeviceError::Descriptor("unknown FUSE parent inode")),
        Some(directory) => Ok(child_path(directory.as_str(), name)),
    }
}

/// The path of a number.
pub open spec fn known(table: Result<Inodes, DeviceError>, node_id: u64) -> Result<
    Seq<char>,
    DeviceError,
> {
    match table {
        Err(error) => Err(error),
        Ok(inodes) => if inodes.paths.contains_key(node_id) {
            Ok(inodes.paths[node_id])
        } else {
            Err(DeviceError::Descriptor("unknown FUSE inode"))
        },
    }
}

/// The path of a number.
fn known_path(inodes: Result<&FsInodes, DeviceError>, node_id: u64) -> (result: Result<
    String,
    DeviceError,
>)
    ensures
        match result {
            Ok(path) => known(table_of(inodes), node_id) == Ok::<Seq<char>, DeviceError>(path@),
            Err(error) => known(table_of(inodes), node_id) == Err::<Seq<char>, DeviceError>(error),
        },
{
    match inodes?.path(node_id) {
        Some(path) => Ok(path),
        None => Err(DeviceError::Descriptor("unknown FUSE inode")),
    }
}

/// The requests that are not answered.
pub open spec fn is_silent(opcode: u32) -> bool {
    opcode == FUSE_FORGET || opcode == FUSE_RELEASE || opcode == FUSE_RELEASEDIR || opcode
        == FUSE_DESTROY
}

/// The requests that are served.
pub open spec fn is_served(opcode: u32) -> bool {
    opcode == FUSE_INIT || opcode == FUSE_LOOKUP || opcode == FUSE_GETATTR || opcode == FUSE_OPEN
        || opcode == FUSE_OPENDIR || opcode == FUSE_READ || opcode == FUSE_READDIR || opcode
        == FUSE_STATFS
}

/// How much a read of `size` bytes gives at most.
pub open spec fn read_size(size: nat) -> nat {
    if size > FUSE_MAX_READ {
        FUSE_MAX_READ as nat
    } else {
        size
    }
}

/// What a request that is served comes to.
pub open spec fn task(
    table: Result<Inodes, DeviceError>,
    header: FuseInHeader,
    payload: Seq<u8>,
) -> Result<Step, DeviceError> {
    let unique = header.unique;
    let node_id = header.node_id;
    if header.opcode == FUSE_INIT {
        match fuse::spec_init_reply(payload) {
            Ok(body) => Ok(Step::Reply(fuse::success(unique, body))),
            Err(error) => Err(error),
        }
    } else if header.opcode == FUSE_LOOKUP {
        match looked_up(table, node_id, payload) {
            Ok(path) => Ok(Step::Lookup { unique, way: inodes::spec_ancestors(path), path }),
            Err(error) => Err(error),
        }
    } else if header.opcode == FUSE_GETATTR {
        match known(table, node_id) {
            Ok(path) => Ok(
                Step::GetAttr { unique, node_id, way: inodes::spec_ancestors(path), path },
            ),
            Err(error) => Err(error),
        }
    } else if header.opcode == FUSE_OPEN || header.opcode == FUSE_OPENDIR {
        match known(table, node_id) {
            Ok(path) => Ok(
                Step::Open { unique, node_id, way: inodes::spec_ancestors(path), path },
            ),
            Err(error) => Err(error),
        }
    } else if header.opcode == FUSE_READ {
        if payload.len() < 24 {
            Err(DeviceError::Descriptor("short FUSE_READ request"))
        } else {
            match known(table, node_id) {
                Ok(path) => Ok(
                    Step::Read {
                        unique,
                        way: inodes::spec_ancestors(path),
                        path,
                        offset: bytes::le_field(payload, 8, 8) as u64,
                        size: read_size(bytes::le_field(payload, 16, 4)),
                    },
                ),
                Err(error) => Err(error),
            }
        }
    } else if header.opcode == FUSE_READDIR {
        if payload.len() < 24 {
            Err(DeviceError::Descriptor("short FUSE_READDIR request"))
        } else {
            match known(table, node_id) {
                Ok(path) => Ok(
                    Step::ReadDir {
                        unique,
                        way: inodes::spec_ancestors(path),
                        path,
                        offset: bytes::le_field(payload, 8, 8) as u64,
                        maximum: bytes::le_field(payload, 16, 4),
                    },
                ),
                Err(error) => Err(error),
            }
        }
    } else {
        Ok(Step::Reply(fuse::success(unique, fuse::statfs_out())))
    }
}

/// What a request comes to.
pub open spec fn executed(
    table: Result<Inodes, DeviceError>,
    codes: ErrorCodes,
    request: Seq<u8>,
) -> Result<Step, DeviceError> {
    let header = FuseInHeader::of(request);
    let payload = request.subrange(FUSE_IN_HEADER_SIZE as int, request.len() as int);
    if request.len() < FUSE_IN_HEADER_SIZE {
        Err(DeviceError::Descriptor("short FUSE request header"))
    } else if header.length != request.len() {
        Ok(Step::Reply(fuse::failure(header.unique, codes.invalid)))
    } else if is_silent(header.opcode) {
        Ok(Step::Reply(Seq::empty()))
    } else if !is_served(header.opcode) {
        Ok(Step::Reply(fuse::failure(header.unique, codes.unsupported)))
    } else {
        match task(table, header, payload) {
            Ok(step) => Ok(step),
            Err(error) => Ok(
                Step::Reply(fuse::failure(header.unique, fuse::spec_errno(error, codes))),
            ),
        }
    }
}

/// Decides what a request comes to.  Where the known files cannot be had, a request that
/// needs them is answered with the reason.
pub fn execute_request(
    inodes: Result<&FsInodes, DeviceError>,
    codes: &ErrorCodes,
    request: &[u8],
) -> (result: Result<FsStep, DeviceError>)
    ensures
        step_of(result) == executed(table_of(inodes), *codes, request@),
{
    let header = FuseInHeader::parse(request)?;
    if header.length as usize != request.len() {
        return Ok(FsStep::Reply(error_reply(header.unique, codes.invalid)));
    }
    let payload = vstd::slice::slice_subrange(request, FUSE_IN_HEADER_SIZE, request.len());
    let opcode: u32 = header.opcode;
    if opcode == FUSE_FORGET || opcode == FUSE_RELEASE || opcode == FUSE_RELEASEDIR || opcode
        == FUSE_DESTROY {
        return Ok(FsStep::Reply(Vec::new()));
    }
    if !(opcode == FUSE_INIT || opcode == FUSE_LOOKUP || opcode == FUSE_GETATTR || opcode
        == FUSE_OPEN || opcode == FUSE_OPENDIR || opcode == FUSE_READ || opcode == FUSE_READDIR
        || opcode == FUSE_STATFS) {
        return Ok(FsStep::Reply(error_reply(header.unique, codes.unsupported)));
    }
    match plan(inodes, &header, payload) {
        Ok(step) => Ok(step),
        Err(error) => Ok(
            FsStep::Reply(error_reply(header.unique, fuse::fuse_errno(&error, codes))),
        ),
    }
}

fn plan(
    inodes: Result<&FsInodes, DeviceError>,
    header: &FuseInHeader,
    payload: &[u8],
) -> (result: Result<FsStep, DeviceError>)
    requires
        is_served(header.opcode),
    ensures
        step_of(result) == task(table_of(inodes), *header, payload@),
{
    let unique: u64 = header.unique;
    let node_id: u64 = header.node_id;
    if header.opcode == FUSE_INIT {
        let body = init_reply(payload)?;
        return Ok(FsStep::Reply(success_reply(unique, body.as_slice())));
    }
    if header.opcode == FUSE_LOOKUP {
        let path = lookup_path(inodes, node_id, payload)?;
        let way = ancestors(path.as_str());
        return Ok(FsStep::Lookup { unique, way, path });
    }
    if header.opcode == FUSE_GETATTR {
        let path = known_path(inodes, node_id)?;
        let way = ancestors(path.as_str());
        return Ok(FsStep::GetAttr { unique, node_id, way, path });
    }
    if header.opcode == FUSE_OPEN || header.opcode == FUSE_OPENDIR {
        let path = known_path(inodes, node_id)?;
        let way = ancestors(path.as_str());
        return Ok(FsStep::Open { unique, node_id, way, path });
    }
    if header.opcode == FUSE_READ {
        if payload.len() < 24 {
            return Err(DeviceError::Descriptor("short FUSE_READ request"));
        }
        let offset: u64 = read_u64(payload, 8)?;
        let asked: usize = read_u32(payload, 16)? as usize;
        let size: usize = if asked > FUSE_MAX_READ {
            FUSE_MAX_READ
        } else {
            asked
        };
        let path = known_path(inodes, node_id)?;
        let way = ancestors(path.as_str());
        return Ok(FsStep::Read { unique, way, path, offset, size });
    }
    if header.opcode == FUSE_READDIR {
        if payload.len() < 24 {
            return Err(DeviceError::Descriptor("short FUSE_READDIR request"));
        }
        let offset: u64 = read_u64(payload, 8)?;
        let maximum: usize = read_u32(payload, 16)? as usize;
        let path = known_path(inodes, node_id)?;
        let way = ancestors(path.as_str());
        return Ok(FsStep::ReadDir { unique, way, path, offset, maximum });
    }
    let body = statfs_reply();
    Ok(FsStep::Reply(success_reply(unique, body.as_slice())))
}

/// What the host found where a step sent it.
#[derive(Debug)]
pub struct FsSight {
    /// What it found at each directory on the way.
    pub way: Vec<Result<FileMetadata, IoError>>,
    /// What it found at the path.
    pub found: Result<FileMetadata, IoError>,
}

/// Whether the host found a symbolic link.
pub open spec fn is_link(found: Result<FileMetadata, IoError>) -> bool {
    found matches Ok(metadata) && metadata.symlink
}

/// Whether the host found a file, no symbolic link, and none on the way to it.
pub open spec fn is_clear(sight: FsSight) -> bool {
    &&& forall|k: int| 0 <= k < sight.way@.len() ==> !is_link(#[trigger] sight.way@[k])
    &&& sight.found matches Ok(metadata) && !metadata.symlink
}

impl FsSight {
    /// Whether a symbolic link stands on the way.
    pub open spec fn crosses_link(self) -> bool {
        exists|k: int| 0 <= k < self.way@.len() && is_link(#[trigger] self.way@[k])
    }

    /// The metadata of a file that is no symbolic link and is reached through none.
    pub open spec fn plain(self) -> Result<FileMetadata, DeviceError> {
        if self.crosses_link() {
            Err(DeviceError::Descriptor("virtio-fs symlink is not supported"))
        } else {
            match self.found {
                Err(error) => Err(DeviceError::Io(error)),
                Ok(metadata) => if metadata.symlink {
                    Err(DeviceError::Descriptor("virtio-fs symlink is not supported"))
                } else {
                    Ok(metadata)
                },
            }
        }
    }

    fn check_way(&self) -> (crosses: bool)
        ensures
            crosses == self.crosses_link(),
    {
        let mut k: usize = 0;
        while k < self.way.len()
            invariant
                k <= self.way@.len(),
                forall|j: int| 0 <= j < k ==> !is_link(#[trigger] self.way@[j]),
            decreases self.way@.len() - k,
        {
            let found = &self.way[k];
            if let Ok(metadata) = found {
                if metadata.symlink {
                    assert(is_link(self.way@[k as int]));
                    return true;
                }
            }
            k = k + 1;
        }
        false
    }

    /// Whether the path leads to a file without a symbolic link, so that the file may be
    /// opened.
    pub fn is_plain(&self) -> (plain: bool)
        ensures
            plain == self.plain() is Ok,
    {
        if self.check_way() {
            return false;
        }
        match &self.found {
            Err(_) => false,
            Ok(metadata) => !metadata.symlink,
        }
    }

    fn plain_metadata(self) -> (result: Result<FileMetadata, DeviceError>)
        ensures
            result == self.plain(),
    {
        if self.check_way() {
            return Err(DeviceError::Descriptor("virtio-fs symlink is not supported"));
        }
        match self.found {
            Err(error) => Err(DeviceError::Io(error)),
            Ok(metadata) => {
                if metadata.symlink {
                    return Err(DeviceError::Descriptor("virtio-fs symlink is not supported"));
                }
                Ok(metadata)
            },
        }
    }
}

/// What a lookup of `path` gives, and the files that are then known.  A path that the host
/// does not put `inside` the exported directory is refused.
pub open spec fn entered(
    inodes: Inodes,
    path: Seq<char>,
    inside: bool,
    sight: FsSight,
) -> (Result<Seq<u8>, DeviceError>, Inodes) {
    match sight.plain() {
        Err(error) => (Err(error), inodes),
        Ok(metadata) => if !inside {
            (Err(DeviceError::Descriptor("virtio-fs symlink is not supported")), inodes)
        } else {
            match inodes.assign(path).0 {
                Err(error) => (Err(error), inodes.assign(path).1),
                Ok(id) => (Ok(fuse::spec_entry_out(id, metadata)), inodes.assign(path).1),
            }
        },
    }
}

/// Answers a lookup with what the host found at the path, and with whether the path, as the
/// host joined it to the exported directory, lies `inside` that.
pub fn lookup_reply(
    inodes: &mut FsInodes,
    codes: &ErrorCodes,
    unique: u64,
    path: String,
    inside: bool,
    sight: FsSight,
) -> (out: Vec<u8>)
    requires
        old(inodes)@.wf(),
    ensures
        out@ == fuse::answer(unique, *codes, entered(old(inodes)@, path@, inside, sight).0),
        final(inodes)@ == entered(old(inodes)@, path@, inside, sight).1,
        final(inodes)@.wf(),
        inside && is_clear(sight) && old(inodes)@.next < u64::MAX ==> {
            let id = bytes::le_field(out@, 16, 8) as u64;
            &&& bytes::le_field(out@, 4, 4) == 0
            &&& bytes::le_field(out@, 8, 8) == unique
            &&& final(inodes)@.paths.contains_key(id)
            &&& final(inodes)@.paths[id] == path@
            &&& fuse::describes(out@.subrange(56, 144), id, sight.found->Ok_0)
        },
{
    proof {
        if inside && is_clear(sight) && inodes@.next < u64::MAX {
            law_found_files_are_entered(
                inodes@,
                *codes,
                unique,
                path@,
                sight,
                sight.found->Ok_0,
            );
        }
    }
    let result: Result<Vec<u8>, DeviceError> = match sight.plain_metadata() {
        Err(error) => Err(error),
        Ok(metadata) => if !inside {
            Err(DeviceError::Descriptor("virtio-fs symlink is not supported"))
        } else {
            match inodes.id_for_path(path) {
                Err(error) => Err(error),
                Ok(id) => Ok(entry_out(id, &metadata)),
            }
        },
    };
    reply(unique, codes, &result)
}

/// What a request for the attributes of a file gives.
pub open spec fn attributes(node_id: u64, sight: FsSight) -> Result<
    Seq<u8>,
    DeviceError,
> {
    match sight.plain() {
        Err(error) => Err(error),
        Ok(metadata) => Ok(fuse::spec_attr_out(node_id, metadata)),
    }
}

/// Answers a request for attributes with what the host found.
pub fn getattr_reply(
    codes: &ErrorCodes,
    unique: u64,
    node_id: u64,
    sight: FsSight,
) -> (out: Vec<u8>)
    ensures
        out@ == fuse::answer(unique, *codes, attributes(node_id, sight)),
        is_clear(sight) ==> {
            &&& bytes::le_field(out@, 4, 4) == 0
            &&& bytes::le_field(out@, 8, 8) == unique
            &&& fuse::describes(out@.subrange(32, 120), node_id, sight.found->Ok_0)
        },
{
    proof {
        if is_clear(sight) {
            law_plain_files_are_served(
                *codes,
                unique,
                node_id,
                sight,
                sight.found->Ok_0,
                arbitrary(),
            );
        }
    }
    let result: Result<Vec<u8>, DeviceError> = match sight.plain_metadata() {
        Err(error) => Err(error),
        Ok(metadata) => Ok(attr_out(node_id, &metadata)),
    };
    reply(unique, codes, &result)
}

/// What a request to open a file gives.
pub open spec fn opened(node_id: u64, sight: FsSight) -> Result<
    Seq<u8>,
    DeviceError,
> {
    match sight.plain() {
        Err(error) => Err(error),
        Ok(metadata) => Ok(fuse::spec_open_out(node_id)),
    }
}

/// Answers a request to open a file with what the host found.
pub fn open_reply(
    codes: &ErrorCodes,
    unique: u64,
    node_id: u64,
    sight: FsSight,
) -> (out: Vec<u8>)
    ensures
        out@ == fuse::answer(unique, *codes, opened(node_id, sight)),
        is_clear(sight) ==> {
            &&& bytes::le_field(out@, 4, 4) == 0
            &&& bytes::le_field(out@, 8, 8) == unique
            &&& bytes::le_field(out@.skip(16), 0, 8) == node_id
        },
{
    proof {
        if is_clear(sight) {
            law_plain_files_are_served(
                *codes,
                unique,
                node_id,
                sight,
                sight.found->Ok_0,
                arbitrary(),
            );
        }
    }
    let result: Result<Vec<u8>, DeviceError> = match sight.plain_metadata() {
        Err(error) => Err(error),
        Ok(metadata) => Ok(open_out(node_id)),
    };
    reply(unique, codes, &result)
}

/// What a read gives: the data, unless the path is a symbolic link or leads through one.
pub open spec fn contents(
    sight: FsSight,
    data: Result<Vec<u8>, IoError>,
) -> Result<Seq<u8>, DeviceError> {
    match sight.plain() {
        Err(error) => Err(error),
        Ok(_) => match data {
            Err(error) => Err(DeviceError::Io(error)),
            Ok(data) => Ok(data@),
        },
    }
}

/// Answers a read with what the host found and read.
pub fn read_reply(
    codes: &ErrorCodes,
    unique: u64,
    sight: FsSight,
    data: Result<Vec<u8>, IoError>,
) -> (out: Vec<u8>)
    requires
        data matches Ok(data) ==> data@.len() <= FUSE_MAX_READ,
    ensures
        out@ == fuse::answer(unique, *codes, contents(sight, data)),
        is_clear(sight) && data is Ok ==> {
            &&& bytes::le_field(out@, 4, 4) == 0
            &&& bytes::le_field(out@, 8, 8) == unique
            &&& out@.skip(16) == data->Ok_0@
        },
{
    proof {
        if is_clear(sight) && data is Ok {
            law_plain_files_are_served(
                *codes,
                unique,
                0,
                sight,
                sight.found->Ok_0,
                data->Ok_0,
            );
        }
    }
    let result: Result<Vec<u8>, DeviceError> = match sight.plain_metadata() {
        Err(error) => Err(error),
        Ok(_) => match data {
            Err(error) => Err(DeviceError::Io(error)),
            Ok(data) => Ok(data),
        },
    };
    reply(unique, codes, &result)
}

/// Why a path cannot be listed, if it cannot be: it does not lie `inside` the exported
/// directory, it is a symbolic link or reached through one, or it is no directory.
pub open spec fn listing_refusal(inside: bool, sight: FsSight) -> Option<DeviceError> {
    if !inside {
        Some(DeviceError::Descriptor("FUSE_READDIR inode is not a directory"))
    } else if sight.crosses_link() || is_link(sight.found) {
        Some(DeviceError::Descriptor("virtio-fs symlink is not supported"))
    } else if sight.found matches Ok(metadata) && metadata.directory {
        None
    } else {
        Some(DeviceError::Descriptor("FUSE_READDIR inode is not a directory"))
    }
}

/// No symbolic link is traversed: where the host found one on the way to a path, or at the
/// path, the request is refused, and the file behind the link is not looked up, described,
/// opened, read or listed.
pub proof fn law_symbolic_links_are_refused(
    inodes: Inodes,
    path: Seq<char>,
    node_id: u64,
    inside: bool,
    sight: FsSight,
    data: Result<Vec<u8>, IoError>,
)
    requires
        sight.crosses_link() || is_link(sight.found),
    ensures
        ({
            let refused = Err::<Seq<u8>, DeviceError>(
                DeviceError::Descriptor("virtio-fs symlink is not supported"),
            );
            &&& entered(inodes, path, inside, sight) == (refused, inodes)
            &&& attributes(node_id, sight) == refused
            &&& opened(node_id, sight) == refused
            &&& contents(sight, data) == refused
            &&& listing_refusal(inside, sight) is Some
            &&& inside ==> listing_refusal(inside, sight) == Some(refused->Err_0)
        }),
{
}

/// Whether a sight is what a `host` shows that has `host(path)` at each path.
pub open spec fn is_shown(
    sight: FsSight,
    host: spec_fn(Seq<char>) -> Result<FileMetadata, IoError>,
    way: Seq<Seq<char>>,
    path: Seq<char>,
) -> bool {
    &&& sight.way@.len() == way.len()
    &&& forall|k: int| 0 <= k < way.len() ==> #[trigger] sight.way@[k] == host(way[k])
    &&& sight.found == host(path)
}

/// Nothing behind a symbolic link is reached: if any directory above a path is a link on the
/// host, and the host shows what it has at each directory on the way, the path is neither
/// looked up, described, opened, read nor listed.
pub proof fn law_nothing_behind_a_link_is_reached(
    host: spec_fn(Seq<char>) -> Result<FileMetadata, IoError>,
    directory: Seq<char>,
    rest: Seq<char>,
    sight: FsSight,
    inodes: Inodes,
    node_id: u64,
    inside: bool,
    data: Result<Vec<u8>, IoError>,
)
    requires
        is_link(host(directory)),
        ({
            let path = directory + seq!['/'] + rest;
            is_shown(sight, host, inodes::spec_ancestors(path), path)
        }),
    ensures
        ({
            let path = directory + seq!['/'] + rest;
            let refused = Err::<Seq<u8>, DeviceError>(
                DeviceError::Descriptor("virtio-fs symlink is not supported"),
            );
            &&& entered(inodes, path, inside, sight) == (refused, inodes)
            &&& attributes(node_id, sight) == refused
            &&& opened(node_id, sight) == refused
            &&& contents(sight, data) == refused
            &&& listing_refusal(inside, sight) is Some
        }),
{
    let path = directory + seq!['/'] + rest;
    let way = inodes::spec_ancestors(path);
    inodes::law_prefixes_are_ancestors(directory, rest);
    let k = choose|k: int| 0 <= k < way.len() && way[k] == directory;
    assert(is_link(sight.way@[k]));
    law_symbolic_links_are_refused(inodes, path, node_id, inside, sight, data);
}

/// What the host does not put inside the exported directory is neither named nor listed.
pub proof fn law_nothing_outside_is_named(inodes: Inodes, path: Seq<char>, sight: FsSight)
    ensures
        entered(inodes, path, false, sight).0 is Err,
        entered(inodes, path, false, sight).1 == inodes,
        listing_refusal(false, sight) is Some,
{
}

/// A directory listing under way.
#[verifier::ext_equal]
pub struct Listing {
    /// The path of the directory.
    pub directory: Seq<char>,
    /// How many entries of the directory the driver has seen.
    pub offset: u64,
    /// How many bytes the driver takes.
    pub maximum: nat,
    /// How many entries of the directory were gone through.
    pub index: u64,
    /// The records so far.
    pub entries: Seq<u8>,
}

/// An entry of a directory as the host gives it; one without a name has a name that is
/// no text.
pub struct Entry {
    pub name: Option<Seq<char>>,
    pub found: Result<FileMetadata, IoError>,
}

/// What going on with a listing gives: whether it goes on, and what it leaves behind.
#[verifier::ext_equal]
pub struct Progress {
    pub result: Result<bool, DeviceError>,
    pub listing: Listing,
    pub inodes: Inodes,
}

impl Listing {
    /// A listing that starts.
    pub open spec fn start(directory: Seq<char>, offset: u64, maximum: nat) -> Listing {
        Listing { directory, offset, maximum, index: 0, entries: Seq::empty() }
    }

    /// The driver has seen the next entry.
    pub open spec fn skips(self) -> bool {
        self.index < self.offset
    }

    /// The listing behind the next entry.
    pub open spec fn advanced(self) -> Listing {
        Listing { index: (self.index + 1) as u64, ..self }
    }

    /// What listing an entry that the driver has not seen gives.  The record says where
    /// the listing goes on behind it.
    pub open spec fn offered(self, inodes: Inodes, entry: Entry) -> Progress {
        match entry.found {
            Err(error) => Progress {
                result: Err(DeviceError::Io(error)),
                listing: self,
                inodes,
            },
            Ok(metadata) => if metadata.symlink {
                Progress { result: Ok(true), listing: self.advanced(), inodes }
            } else {
                match entry.name {
                    None => Progress {
                        result: Err(DeviceError::Descriptor("non-UTF-8 virtio-fs name")),
                        listing: self,
                        inodes,
                    },
                    Some(name) => self.recorded(inodes, name, metadata),
                }
            },
        }
    }

    /// What recording an entry gives.
    pub open spec fn recorded(self, inodes: Inodes, name: Seq<char>, metadata: FileMetadata) -> Progress {
        let (number, named) = inodes.assign(inodes::spec_child_path(self.directory, name));
        match number {
            Err(error) => Progress { result: Err(error), listing: self, inodes: named },
            Ok(id) => match fuse::dirent_result(
                id,
                (self.index + 1) as u64,
                vstd::utf8::encode_utf8(name),
                metadata,
            ) {
                Err(error) => Progress { result: Err(error), listing: self, inodes: named },
                Ok(record) => if self.entries.len() + record.len() > self.maximum {
                    Progress { result: Ok(false), listing: self, inodes: named }
                } else {
                    Progress {
                        result: Ok(true),
                        listing: Listing {
                            entries: self.entries + record,
                            ..self.advanced()
                        },
                        inodes: named,
                    }
                },
            },
        }
    }

    /// What going through `entries` gives.
    pub open spec fn through(self, inodes: Inodes, entries: Seq<Entry>) -> Progress
        decreases entries.len(),
    {
        if entries.len() == 0 {
            Progress { result: Ok(true), listing: self, inodes }
        } else if self.skips() {
            self.advanced().through(inodes, entries.drop_first())
        } else {
            let progress = self.offered(inodes, entries[0]);
            if progress.result == Ok::<bool, DeviceError>(true) {
                progress.listing.through(progress.inodes, entries.drop_first())
            } else {
                progress
            }
        }
    }
}

/// A listing never grows beyond what the driver takes.
pub proof fn law_listing_fits(listing: Listing, inodes: Inodes, entries: Seq<Entry>)
    requires
        listing.entries.len() <= listing.maximum,
    ensures
        listing.through(inodes, entries).listing.entries.len() <= listing.maximum,
        listing.through(inodes, entries).listing.maximum == listing.maximum,
    decreases entries.len(),
{
    if entries.len() != 0 {
        if listing.skips() {
            law_listing_fits(listing.advanced(), inodes, entries.drop_first());
        } else {
            let progress = listing.offered(inodes, entries[0]);
            if progress.result == Ok::<bool, DeviceError>(true) {
                law_listing_fits(progress.listing, progress.inodes, entries.drop_first());
            }
        }
    }
}

/// A listing that starts at an offset passes over as many entries and lists what comes
/// behind them.
pub proof fn law_listing_resumes(
    directory: Seq<char>,
    offset: u64,
    maximum: nat,
    inodes: Inodes,
    entries: Seq<Entry>,
)
    requires
        offset <= entries.len(),
    ensures
        Listing::start(directory, offset, maximum).through(inodes, entries) == (Listing {
            index: offset,
            ..Listing::start(directory, offset, maximum)
        }).through(inodes, entries.skip(offset as int)),
{
    assert(entries.skip(0) =~= entries);
    lemma_skipping(Listing::start(directory, offset, maximum), inodes, entries);
}

proof fn lemma_skipping(listing: Listing, inodes: Inodes, entries: Seq<Entry>)
    requires
        listing.index <= listing.offset,
        listing.offset - listing.index <= entries.len(),
    ensures
        listing.through(inodes, entries) == (Listing {
            index: listing.offset,
            ..listing
        }).through(inodes, entries.skip(listing.offset - listing.index)),
    decreases entries.len(),
{
    let left = listing.offset - listing.index;
    if left == 0 {
        assert(entries.skip(0) =~= entries);
    } else {
        lemma_skipping(listing.advanced(), inodes, entries.drop_first());
        assert(entries.drop_first().skip(left - 1) =~= entries.skip(left));
    }
}

/// Where a listing stands tells how many entries were gone through: one that ended
/// early goes on, from a new request with that offset, with the first entry that it did
/// not take.
pub proof fn law_listing_counts_entries(listing: Listing, inodes: Inodes, entries: Seq<Entry>)
    requires
        listing.index + entries.len() <= u64::MAX,
    ensures
        ({
            let progress = listing.through(inodes, entries);
            let count = progress.listing.index - listing.index;
            &&& 0 <= count <= entries.len()
            &&& progress.result == Ok::<bool, DeviceError>(true) <==> count == entries.len()
            &&& progress.listing.offset == listing.offset
            &&& progress.listing.directory == listing.directory
        }),
    decreases entries.len(),
{
    if entries.len() != 0 {
        if listing.skips() {
            law_listing_counts_entries(listing.advanced(), inodes, entries.drop_first());
        } else {
            let progress = listing.offered(inodes, entries[0]);
            if progress.result == Ok::<bool, DeviceError>(true) {
                law_listing_counts_entries(
                    progress.listing,
                    progress.inodes,
                    entries.drop_first(),
                );
            }
        }
    }
}

/// Listing a directory below the exported one makes known only files below it, as long
/// as the host gives its entries by their names.
pub proof fn law_listing_is_confined(listing: Listing, inodes: Inodes, entries: Seq<Entry>)
    requires
        inodes.wf(),
        inodes.confined(),
        inodes::is_confined(listing.directory),
        forall|k: int|
            0 <= k < entries.len() && (#[trigger] entries[k]).name is Some
                ==> inodes::is_entry_name(entries[k].name->0),
    ensures
        listing.through(inodes, entries).inodes.wf(),
        listing.through(inodes, entries).inodes.confined(),
    decreases entries.len(),
{
    if entries.len() != 0 {
        let rest = entries.drop_first();
        assert forall|k: int| 0 <= k < rest.len() && (#[trigger] rest[k]).name is Some implies
            inodes::is_entry_name(rest[k].name->0) by {
            assert(rest[k] == entries[k + 1]);
        }
        if listing.skips() {
            law_listing_is_confined(listing.advanced(), inodes, rest);
        } else {
            if let Some(name) = entries[0].name {
                assert(inodes::is_entry_name(name));
                inodes::lemma_assign_wf(
                    inodes,
                    inodes::spec_child_path(listing.directory, name),
                );
                inodes::lemma_entry_is_confined(inodes, listing.directory, name);
            }
            let progress = listing.offered(inodes, entries[0]);
            if progress.result == Ok::<bool, DeviceError>(true) {
                law_listing_is_confined(progress.listing, progress.inodes, rest);
            }
        }
    }
}

/// A directory listing under way.
#[derive(Debug)]
pub struct FsListing {
    directory: String,
    offset: u64,
    maximum: usize,
    index: u64,
    entries: Vec<u8>,
}

impl View for FsListing {
    type V = Listing;

    closed spec fn view(&self) -> Listing {
        Listing {
            directory: self.directory@,
            offset: self.offset,
            maximum: self.maximum as nat,
            index: self.index,
            entries: self.entries@,
        }
    }
}

impl FsListing {
    /// Starts a listing, if the host found a directory `inside` the exported one.
    pub fn start(
        directory: String,
        inside: bool,
        sight: FsSight,
        offset: u64,
        maximum: usize,
    ) -> (result: Result<Self, DeviceError>)
        ensures
            match result {
                Ok(listing) => {
                    &&& listing_refusal(inside, sight) is None
                    &&& listing@ == Listing::start(directory@, offset, maximum as nat)
                },
                Err(error) => listing_refusal(inside, sight) == Some(error),
            },
    {
        if !inside {
            return Err(DeviceError::Descriptor("FUSE_READDIR inode is not a directory"));
        }
        if sight.check_way() {
            return Err(DeviceError::Descriptor("virtio-fs symlink is not supported"));
        }
        let metadata = match sight.found {
            Ok(metadata) => metadata,
            Err(_) => {
                return Err(DeviceError::Descriptor("FUSE_READDIR inode is not a directory"));
            },
        };
        if metadata.symlink {
            return Err(DeviceError::Descriptor("virtio-fs symlink is not supported"));
        }
        if !metadata.directory {
            return Err(DeviceError::Descriptor("FUSE_READDIR inode is not a directory"));
        }
        let listing = FsListing { directory, offset, maximum, index: 0, entries: Vec::new() };
        proof {
            assert(listing@ =~= Listing::start(directory@, offset, maximum as nat));
        }
        Ok(listing)
    }

    /// Passes over the next entry, if the driver has seen it.
    pub fn skip(&mut self) -> (skipped: bool)
        ensures
            skipped == old(self)@.skips(),
            final(self)@ == if skipped {
                old(self)@.advanced()
            } else {
                old(self)@
            },
    {
        if self.index < self.offset {
            self.index = self.index + 1;
            return true;
        }
        false
    }

    /// Lists an entry that the driver has not seen, and says whether there may be room
    /// for more.
    pub fn offer(
        &mut self,
        inodes: &mut FsInodes,
        name: Option<String>,
        found: Result<FileMetadata, IoError>,
    ) -> (result: Result<bool, DeviceError>)
        requires
            old(inodes)@.wf(),
            old(self)@.index < u64::MAX,
        ensures
            ({
                let entry = Entry {
                    name: match name {
                        Some(name) => Some(name@),
                        None => None,
                    },
                    found,
                };
                (Progress { result, listing: final(self)@, inodes: final(inodes)@ }) == old(
                    self,
                )@.offered(old(inodes)@, entry)
            }),
            final(inodes)@.wf(),
    {
        let metadata = match found {
            Err(error) => {
                return Err(DeviceError::Io(error));
            },
            Ok(metadata) => metadata,
        };
        if metadata.symlink {
            self.index = self.index + 1;
            return Ok(true);
        }
        let name = match name {
            None => {
                return Err(DeviceError::Descriptor("non-UTF-8 virtio-fs name"));
            },
            Some(name) => name,
        };
        let path = child_path(self.directory.as_str(), name.as_str());
        let id: u64 = inodes.id_for_path(path)?;
        let record = dirent(id, self.index + 1, name.as_str(), &metadata)?;
        let fits: bool = match self.entries.len().checked_add(record.len()) {
            Some(length) => length <= self.maximum,
            None => false,
        };
        if !fits {
            return Ok(false);
        }
        bytes::put_slice(&mut self.entries, record.as_slice());
        self.index = self.index + 1;
        Ok(true)
    }

    /// How long the listing is.
    pub fn length(&self) -> (length: usize)
        ensures
            length == self@.entries.len(),
    {
        self.entries.len()
    }
}

/// What a listing gives.
pub open spec fn listed(result: Result<FsListing, DeviceError>) -> Result<Seq<u8>, DeviceError> {
    match result {
        Err(error) => Err(error),
        Ok(listing) => Ok(listing@.entries),
    }
}

/// Answers a request to list a directory.
pub fn readdir_reply(codes: &ErrorCodes, unique: u64, result: Result<FsListing, DeviceError>) -> (out: Vec<
    u8,
>)
    requires
        result matches Ok(listing) ==> FUSE_OUT_HEADER_SIZE + listing@.entries.len() <= u32::MAX,
    ensures
        out@ == fuse::answer(unique, *codes, listed(result)),
{
    let body: Result<Vec<u8>, DeviceError> = match result {
        Err(error) => Err(error),
        Ok(listing) => Ok(listing.entries),
    };
    reply(unique, codes, &body)
}

/// Every path that is asked of the host is made of names of entries, one below the
/// other, so that none leads up out of the exported directory, and each directory on the
/// way to it is asked for too.
pub proof fn law_host_paths_are_confined(
    inodes: Inodes,
    codes: ErrorCodes,
    request: Seq<u8>,
    step: Step,
)
    requires
        inodes.wf(),
        inodes.confined(),
        executed(Ok(inodes), codes, request) == Ok::<Step, DeviceError>(step),
    ensures
        match step {
            Step::Reply(_) => true,
            Step::Lookup { way, path, .. } => is_guarded(way, path)
                && inodes.assign(path).1.confined(),
            Step::GetAttr { way, path, .. } => is_guarded(way, path),
            Step::Open { way, path, .. } => is_guarded(way, path),
            Step::Read { way, path, size, .. } => is_guarded(way, path) && size <= FUSE_MAX_READ,
            Step::ReadDir { way, path, .. } => is_guarded(way, path),
        },
{
    let header = FuseInHeader::of(request);
    let payload = request.subrange(FUSE_IN_HEADER_SIZE as int, request.len() as int);
    if inodes.paths.contains_key(header.node_id) {
        inodes::law_ancestors_are_confined(inodes.paths[header.node_id]);
        if header.opcode == FUSE_LOOKUP {
            let name = vstd::utf8::decode_utf8(payload.drop_last());
            if inodes::is_entry_name(name) {
                inodes::law_entries_are_confined(inodes, header.node_id, name);
                inodes::law_ancestors_are_confined(
                    inodes::spec_child_path(inodes.paths[header.node_id], name),
                );
            }
        }
    }
}

/// Whether `path` and every directory on the `way` to it, none left out, lie below the
/// exported directory.
pub open spec fn is_guarded(way: Seq<Seq<char>>, path: Seq<char>) -> bool {
    &&& inodes::is_confined(path)
    &&& way == inodes::spec_ancestors(path)
    &&& forall|k: int| 0 <= k < way.len() ==> inodes::is_confined(#[trigger] way[k])
}

/// Where the known files cannot be had, the host is asked for nothing.
pub proof fn law_no_step_without_inodes(error: DeviceError, codes: ErrorCodes, request: Seq<u8>)
    ensures
        match executed(Err(error), codes, request) {
            Ok(step) => step is Reply,
            Err(_) => request.len() < FUSE_IN_HEADER_SIZE,
        },
{
}

/// A file that a lookup found is known by the number it was answered with, and neither a
/// symbolic link nor anything behind one is ever given a number.
pub proof fn law_lookup_makes_known(
    inodes: Inodes,
    path: Seq<char>,
    inside: bool,
    sight: FsSight,
)
    requires
        inodes.wf(),
    ensures
        match entered(inodes, path, inside, sight) {
            (Ok(body), after) => {
                let id = bytes::le_field(body, 0, 8) as u64;
                &&& inside
                &&& !sight.crosses_link()
                &&& sight.found matches Ok(metadata) && !metadata.symlink
                &&& known(Ok(after), id) == Ok::<Seq<char>, DeviceError>(path)
            },
            (Err(_), after) => after == inodes,
        },
{
    inodes::law_numbers_are_stable(inodes, path, path);
    if let Ok(metadata) = sight.plain() {
        if let Ok(id) = inodes.assign(path).0 {
            let body = fuse::spec_entry_out(id, metadata);
            bytes::lemma_limits();
            bytes::lemma_value_of_bytes(id as nat, 8);
            assert(body.subrange(0, 8) =~= bytes::le_bytes(id as nat, 8));
        }
    }
}

/// The bytes by which a driver makes a request: their number, the opcode, the number of the
/// request and that of the file, sixteen bytes that are not looked at, and what the opcode takes.
pub open spec fn asked(
    opcode: u32,
    unique: u64,
    node_id: u64,
    ignored: Seq<u8>,
    payload: Seq<u8>,
) -> Seq<u8> {
    bytes::le_bytes(40 + payload.len(), 4) + bytes::le_bytes(opcode as nat, 4) + bytes::le_bytes(
        unique as nat,
        8,
    ) + bytes::le_bytes(node_id as nat, 8) + ignored + payload
}

proof fn lemma_asked(opcode: u32, unique: u64, node_id: u64, ignored: Seq<u8>, payload: Seq<u8>)
    requires
        ignored.len() == 16,
        40 + payload.len() <= u32::MAX,
    ensures
        ({
            let request = asked(opcode, unique, node_id, ignored, payload);
            &&& request.len() == 40 + payload.len()
            &&& FuseInHeader::of(request) == (FuseInHeader {
                length: (40 + payload.len()) as u32,
                opcode,
                unique,
                node_id,
            })
            &&& request.subrange(40, request.len() as int) == payload
        }),
{
    let request = asked(opcode, unique, node_id, ignored, payload);
    let length = (40 + payload.len()) as u32;
    bytes::lemma_le_bytes_len(length as nat, 4);
    bytes::lemma_le_bytes_len(opcode as nat, 4);
    bytes::lemma_le_bytes_len(unique as nat, 8);
    bytes::lemma_le_bytes_len(node_id as nat, 8);
    fuse::law_request_headers(length, opcode, unique, node_id, ignored + payload);
    assert(request =~= bytes::le_bytes(length as nat, 4) + bytes::le_bytes(opcode as nat, 4)
        + bytes::le_bytes(unique as nat, 8) + bytes::le_bytes(node_id as nat, 8) + (ignored
        + payload));
    assert(request.subrange(40, request.len() as int) =~= payload);
}

/// A driver that looks up the name of an entry in a directory that it knows has the host asked
/// for that entry, and for each directory on the way to it.
pub proof fn law_lookups_ask_for_the_entry(
    inodes: Inodes,
    codes: ErrorCodes,
    unique: u64,
    node_id: u64,
    ignored: Seq<u8>,
    name: Seq<char>,
)
    requires
        ignored.len() == 16,
        inodes.paths.contains_key(node_id),
        inodes::is_entry_name(name),
        41 + vstd::utf8::encode_utf8(name).len() <= u32::MAX,
    ensures
        ({
            let path = inodes::spec_child_path(inodes.paths[node_id], name);
            executed(
                Ok(inodes),
                codes,
                asked(1, unique, node_id, ignored, vstd::utf8::encode_utf8(name).push(0u8)),
            ) == Ok::<Step, DeviceError>(
                Step::Lookup { unique, way: inodes::spec_ancestors(path), path },
            )
        }),
{
    let text = vstd::utf8::encode_utf8(name);
    lemma_asked(1, unique, node_id, ignored, text.push(0u8));
    assert(text.push(0u8).drop_last() =~= text);
    vstd::utf8::encode_utf8_valid_utf8(name);
    vstd::utf8::encode_utf8_decode_utf8(name);
}

/// A driver that asks for the attributes of a file that it knows, or opens it, has the host asked
/// for that file, and for each directory on the way to it.
pub proof fn law_requests_ask_for_the_file(
    inodes: Inodes,
    codes: ErrorCodes,
    unique: u64,
    node_id: u64,
    ignored: Seq<u8>,
    payload: Seq<u8>,
)
    requires
        ignored.len() == 16,
        inodes.paths.contains_key(node_id),
        40 + payload.len() <= u32::MAX,
    ensures
        ({
            let path = inodes.paths[node_id];
            let way = inodes::spec_ancestors(path);
            let open = Ok::<Step, DeviceError>(Step::Open { unique, node_id, way, path });
            &&& executed(Ok(inodes), codes, asked(3, unique, node_id, ignored, payload)) == Ok::<
                Step,
                DeviceError,
            >(Step::GetAttr { unique, node_id, way, path })
            &&& executed(Ok(inodes), codes, asked(14, unique, node_id, ignored, payload)) == open
            &&& executed(Ok(inodes), codes, asked(27, unique, node_id, ignored, payload)) == open
        }),
{
    lemma_asked(3, unique, node_id, ignored, payload);
    lemma_asked(14, unique, node_id, ignored, payload);
    lemma_asked(27, unique, node_id, ignored, payload);
}

/// A driver that reads a file or a directory that it knows has the host asked for it, from the
/// offset that stands in the second eight bytes of what it sends, and for the number of bytes that
/// stands in the next four: of a file no more than a megabyte, of a directory all of them.
pub proof fn law_reads_ask_for_what_is_wanted(
    inodes: Inodes,
    codes: ErrorCodes,
    unique: u64,
    node_id: u64,
    ignored: Seq<u8>,
    handle: Seq<u8>,
    offset: u64,
    size: u32,
    rest: Seq<u8>,
)
    requires
        ignored.len() == 16,
        inodes.paths.contains_key(node_id),
        handle.len() == 8,
        rest.len() >= 4,
        60 + rest.len() <= u32::MAX,
    ensures
        ({
            let payload = handle + bytes::le_bytes(offset as nat, 8) + bytes::le_bytes(
                size as nat,
                4,
            ) + rest;
            let path = inodes.paths[node_id];
            let way = inodes::spec_ancestors(path);
            &&& executed(Ok(inodes), codes, asked(15, unique, node_id, ignored, payload)) == Ok::<
                Step,
                DeviceError,
            >(
                Step::Read {
                    unique,
                    way,
                    path,
                    offset,
                    size: if size <= 0x10_0000 {
                        size as nat
                    } else {
                        0x10_0000
                    },
                },
            )
            &&& executed(Ok(inodes), codes, asked(28, unique, node_id, ignored, payload)) == Ok::<
                Step,
                DeviceError,
            >(Step::ReadDir { unique, way, path, offset, maximum: size as nat })
        }),
{
    let payload = handle + bytes::le_bytes(offset as nat, 8) + bytes::le_bytes(size as nat, 4)
        + rest;
    bytes::lemma_limits();
    bytes::lemma_value_of_bytes(offset as nat, 8);
    bytes::lemma_value_of_bytes(size as nat, 4);
    assert(payload.subrange(8, 16) =~= bytes::le_bytes(offset as nat, 8));
    assert(payload.subrange(16, 20) =~= bytes::le_bytes(size as nat, 4));
    lemma_asked(15, unique, node_id, ignored, payload);
    lemma_asked(28, unique, node_id, ignored, payload);
}

/// A file that the driver does not know is asked of nobody: the request is answered with the code
/// for a malformed one.
pub proof fn law_unknown_files_are_refused(
    inodes: Inodes,
    codes: ErrorCodes,
    opcode: u32,
    unique: u64,
    node_id: u64,
    ignored: Seq<u8>,
    payload: Seq<u8>,
)
    requires
        ignored.len() == 16,
        40 + payload.len() <= u32::MAX,
        !inodes.paths.contains_key(node_id),
        opcode == 1 || opcode == 3 || opcode == 14 || opcode == 15 || opcode == 27 || opcode == 28,
    ensures
        executed(Ok(inodes), codes, asked(opcode, unique, node_id, ignored, payload)) == Ok::<
            Step,
            DeviceError,
        >(Step::Reply(fuse::failure(unique, codes.invalid))),
{
    lemma_asked(opcode, unique, node_id, ignored, payload);
}

/// What is answered without the host: a handshake and a question about the file system as
/// they are met, four kinds of request not at all, every other opcode as unsupported, and a
/// request that is not as long as it says as malformed.
pub proof fn law_answers_without_the_host(
    table: Result<Inodes, DeviceError>,
    codes: ErrorCodes,
    opcode: u32,
    unique: u64,
    node_id: u64,
    ignored: Seq<u8>,
    payload: Seq<u8>,
    more: Seq<u8>,
)
    requires
        ignored.len() == 16,
        40 + payload.len() <= u32::MAX,
    ensures
        ({
            let request = asked(opcode, unique, node_id, ignored, payload);
            let step = executed(table, codes, request);
            &&& opcode == 26 ==> step == Ok::<Step, DeviceError>(
                Step::Reply(fuse::answer(unique, codes, fuse::spec_init_reply(payload))),
            )
            &&& opcode == 17 ==> step == Ok::<Step, DeviceError>(
                Step::Reply(fuse::success(unique, fuse::statfs_out())),
            )
            &&& opcode == 2 || opcode == 18 || opcode == 29 || opcode == 38 ==> step == Ok::<
                Step,
                DeviceError,
            >(Step::Reply(Seq::empty()))
            &&& !(opcode == 1 || opcode == 2 || opcode == 3 || opcode == 14 || opcode == 15
                || opcode == 17 || opcode == 18 || opcode == 26 || opcode == 27 || opcode == 28
                || opcode == 29 || opcode == 38) ==> step == Ok::<Step, DeviceError>(
                Step::Reply(fuse::failure(unique, codes.unsupported)),
            )
            &&& more.len() > 0 ==> executed(table, codes, request + more) == Ok::<
                Step,
                DeviceError,
            >(Step::Reply(fuse::failure(unique, codes.invalid)))
        }),
{
    let request = asked(opcode, unique, node_id, ignored, payload);
    lemma_asked(opcode, unique, node_id, ignored, payload);
    let longer = request + more;
    let length = (40 + payload.len()) as u32;
    fuse::law_request_headers(length, opcode, unique, node_id, ignored + payload + more);
    assert(longer =~= bytes::le_bytes(length as nat, 4) + bytes::le_bytes(opcode as nat, 4)
        + bytes::le_bytes(unique as nat, 8) + bytes::le_bytes(node_id as nat, 8) + (ignored
        + payload + more));
}

/// Bytes that are no header of a request are refused.
pub proof fn law_short_requests_are_refused(
    table: Result<Inodes, DeviceError>,
    codes: ErrorCodes,
    request: Seq<u8>,
)
    ensures
        request.len() < 40 <==> executed(table, codes, request) is Err,
{
}

/// What a driver is answered of a file that the host found, without a link on the way or in its
/// place: its attributes, its handle, the data that was read of it, and, if it is a directory
/// inside the exported one, its listing.
pub proof fn law_plain_files_are_served(
    codes: ErrorCodes,
    unique: u64,
    node_id: u64,
    sight: FsSight,
    metadata: FileMetadata,
    data: Vec<u8>,
)
    requires
        forall|k: int| 0 <= k < sight.way@.len() ==> !is_link(#[trigger] sight.way@[k]),
        sight.found == Ok::<FileMetadata, IoError>(metadata),
        !metadata.symlink,
    ensures
        ({
            let answer = fuse::answer(unique, codes, attributes(node_id, sight));
            &&& answer.len() == 120
            &&& bytes::le_field(answer, 4, 4) == 0
            &&& bytes::le_field(answer, 8, 8) == unique
            &&& fuse::describes(answer.subrange(32, 120), node_id, metadata)
        }),
        ({
            let answer = fuse::answer(unique, codes, opened(node_id, sight));
            &&& answer.len() == 32
            &&& bytes::le_field(answer, 4, 4) == 0
            &&& bytes::le_field(answer, 8, 8) == unique
            &&& bytes::le_field(answer.skip(16), 0, 8) == node_id
        }),
        data@.len() <= 0x10_0000 ==> {
            let answer = fuse::answer(unique, codes, contents(sight, Ok(data)));
            &&& answer.len() == 16 + data@.len()
            &&& bytes::le_field(answer, 4, 4) == 0
            &&& bytes::le_field(answer, 8, 8) == unique
            &&& answer.skip(16) == data@
        },
        metadata.directory ==> listing_refusal(true, sight) is None,
        !metadata.directory ==> listing_refusal(true, sight) is Some,
{
    assert(!sight.crosses_link());
    fuse::law_attributes_are_answered(node_id, metadata);
    fuse::law_handles_are_numbers(node_id);
    fuse::law_successes_are_answered(unique, fuse::spec_attr_out(node_id, metadata));
    fuse::law_successes_are_answered(unique, fuse::spec_open_out(node_id));
    let b = fuse::success(unique, fuse::spec_attr_out(node_id, metadata));
    assert(b.subrange(32, 120) =~= b.skip(16).subrange(16, 104));
    if data@.len() <= 0x10_0000 {
        fuse::law_successes_are_answered(unique, data@);
    }
}

/// What a driver is answered when it looks up a file that the host found: the file's number, which
/// it has from then on, and its attributes.
pub proof fn law_found_files_are_entered(
    inodes: Inodes,
    codes: ErrorCodes,
    unique: u64,
    path: Seq<char>,
    sight: FsSight,
    metadata: FileMetadata,
)
    requires
        inodes.wf(),
        inodes.next < u64::MAX,
        forall|k: int| 0 <= k < sight.way@.len() ==> !is_link(#[trigger] sight.way@[k]),
        sight.found == Ok::<FileMetadata, IoError>(metadata),
        !metadata.symlink,
    ensures
        ({
            let (result, after) = entered(inodes, path, true, sight);
            let answer = fuse::answer(unique, codes, result);
            let id = bytes::le_field(answer, 16, 8) as u64;
            &&& answer.len() == 144
            &&& bytes::le_field(answer, 4, 4) == 0
            &&& bytes::le_field(answer, 8, 8) == unique
            &&& after.paths.contains_key(id)
            &&& after.paths[id] == path
            &&& inodes.ids.contains_key(path) ==> after == inodes
            &&& fuse::describes(answer.subrange(56, 144), id, metadata)
        }),
{
    assert(!sight.crosses_link());
    inodes::law_numbers_are_stable(inodes, path, path);
    let id = inodes.assign(path).0->Ok_0;
    let body = fuse::spec_entry_out(id, metadata);
    fuse::law_entries_are_answered(id, metadata);
    fuse::law_successes_are_answered(unique, body);
    let answer = fuse::success(unique, body);
    assert(answer.subrange(16, 24) =~= answer.skip(16).subrange(0, 8));
    assert(answer.subrange(56, 144) =~= answer.skip(16).subrange(40, 128));
}

/// What the host fails with is what the driver is told, by the host's own number where it gave one,
/// as long as no link stands on the way.
pub proof fn law_host_errors_are_told(
    inodes: Inodes,
    codes: ErrorCodes,
    unique: u64,
    node_id: u64,
    path: Seq<char>,
    inside: bool,
    sight: FsSight,
    data: Result<Vec<u8>, IoError>,
    error: IoError,
)
    requires
        forall|k: int| 0 <= k < sight.way@.len() ==> !is_link(#[trigger] sight.way@[k]),
    ensures
        sight.found == Err::<FileMetadata, IoError>(error) ==> {
            let told = fuse::failure(unique, fuse::spec_errno(DeviceError::Io(error), codes));
            &&& fuse::answer(unique, codes, entered(inodes, path, inside, sight).0) == told
            &&& fuse::answer(unique, codes, attributes(node_id, sight)) == told
            &&& fuse::answer(unique, codes, opened(node_id, sight)) == told
            &&& fuse::answer(unique, codes, contents(sight, data)) == told
        },
        sight.found is Ok && !is_link(sight.found) && data == Err::<Vec<u8>, IoError>(error)
            ==> fuse::answer(unique, codes, contents(sight, data)) == fuse::failure(
            unique,
            fuse::spec_errno(DeviceError::Io(error), codes),
        ),
{
    assert(!sight.crosses_link());
}

/// What becomes of an entry of a directory that the driver has not seen: a symbolic link is passed
/// over, any other entry gets a record if there is room for it, with its number and where the
/// listing goes on, and ends the listing if there is not.
pub proof fn law_entries_are_listed(
    listing: Listing,
    inodes: Inodes,
    name: Seq<char>,
    metadata: FileMetadata,
)
    requires
        inodes.wf(),
        inodes.next < u64::MAX,
        listing.index < u64::MAX,
        vstd::utf8::encode_utf8(name).len() <= u32::MAX,
        24 + vstd::utf8::encode_utf8(name).len() + 7 <= usize::MAX,
    ensures
        ({
            let entry = Entry { name: Some(name), found: Ok(metadata) };
            let text = vstd::utf8::encode_utf8(name);
            let progress = listing.offered(inodes, entry);
            let path = inodes::spec_child_path(listing.directory, name);
            let id = inodes.assign(path).0->Ok_0;
            let record = fuse::dirent_result(id, (listing.index + 1) as u64, text, metadata)->Ok_0;
            let fits = listing.entries.len() + record.len() <= listing.maximum;
            &&& metadata.symlink ==> {
                &&& progress.result == Ok::<bool, DeviceError>(true)
                &&& progress.listing.entries == listing.entries
                &&& progress.inodes == inodes
            }
            &&& !metadata.symlink && fits ==> {
                &&& progress.result == Ok::<bool, DeviceError>(true)
                &&& progress.listing.entries == listing.entries + record
            }
            &&& !metadata.symlink && !fits ==> {
                &&& progress.result == Ok::<bool, DeviceError>(false)
                &&& progress.listing == listing
            }
            &&& !metadata.symlink ==> {
                &&& progress.inodes.paths.contains_key(id)
                &&& progress.inodes.paths[id] == path
            }
            &&& progress.result == Ok::<bool, DeviceError>(true) ==> progress.listing.index
                == listing.index + 1
            &&& progress.listing.directory == listing.directory
            &&& progress.listing.maximum == listing.maximum
            &&& progress.listing.offset == listing.offset
        }),
{
    let path = inodes::spec_child_path(listing.directory, name);
    inodes::law_numbers_are_stable(inodes, path, path);
    let id = inodes.assign(path).0->Ok_0;
    fuse::law_records(
        id,
        (listing.index + 1) as u64,
        vstd::utf8::encode_utf8(name),
        metadata,
    );
}

/// A listing starts with the first entry, empty, in the directory and with the limits that the
/// driver gave, and passes over an entry exactly while it has gone through fewer than the driver
/// has seen.
pub proof fn law_listings_start(directory: Seq<char>, offset: u64, maximum: nat, listing: Listing)
    ensures
        Listing::start(directory, offset, maximum).directory == directory,
        Listing::start(directory, offset, maximum).offset == offset,
        Listing::start(directory, offset, maximum).maximum == maximum,
        Listing::start(directory, offset, maximum).index == 0,
        Listing::start(directory, offset, maximum).entries.len() == 0,
        listing.skips() <==> listing.index < listing.offset,
        listing.index < u64::MAX ==> listing.advanced().index == listing.index + 1,
        listing.advanced().entries == listing.entries,
{
}

/// A listing is answered with its records.
pub proof fn law_listings_are_answered(
    codes: ErrorCodes,
    unique: u64,
    listing: FsListing,
    error: DeviceError,
)
    requires
        16 + listing@.entries.len() <= u32::MAX,
    ensures
        ({
            let answer = fuse::answer(unique, codes, listed(Ok(listing)));
            &&& answer.len() == 16 + listing@.entries.len()
            &&& bytes::le_field(answer, 4, 4) == 0
            &&& bytes::le_field(answer, 8, 8) == unique
            &&& answer.skip(16) == listing@.entries
        }),
        fuse::answer(unique, codes, listed(Err(error))) == fuse::failure(
            unique,
            fuse::spec_errno(error, codes),
        ),
{
    fuse::law_successes_are_answered(unique, listing@.entries);
}

/// A name that is not what an entry can be called is looked up by nobody: without a zero at its end,
/// not UTF-8, or no name of an entry, it is answered with the code for a malformed request.
pub proof fn law_bad_names_are_refused(
    table: Result<Inodes, DeviceError>,
    codes: ErrorCodes,
    unique: u64,
    node_id: u64,
    ignored: Seq<u8>,
    payload: Seq<u8>,
)
    requires
        ignored.len() == 16,
        40 + payload.len() <= u32::MAX,
        payload.len() == 0 || payload[payload.len() - 1] != 0 || !vstd::utf8::valid_utf8(
            payload.take(payload.len() - 1),
        ) || !inodes::is_entry_name(vstd::utf8::decode_utf8(payload.take(payload.len() - 1))),
    ensures
        executed(table, codes, asked(1, unique, node_id, ignored, payload)) == Ok::<
            Step,
            DeviceError,
        >(Step::Reply(fuse::failure(unique, codes.invalid))),
{
    lemma_asked(1, unique, node_id, ignored, payload);
    if payload.len() > 0 {
        assert(payload.drop_last() =~= payload.take(payload.len() - 1));
    }
}

/// A request to read that does not say where and how much is answered with the code for a malformed
/// one.
pub proof fn law_short_reads_are_refused(
    table: Result<Inodes, DeviceError>,
    codes: ErrorCodes,
    opcode: u32,
    unique: u64,
    node_id: u64,
    ignored: Seq<u8>,
    payload: Seq<u8>,
)
    requires
        ignored.len() == 16,
        payload.len() < 24,
        opcode == 15 || opcode == 28,
    ensures
        executed(table, codes, asked(opcode, unique, node_id, ignored, payload)) == Ok::<
            Step,
            DeviceError,
        >(Step::Reply(fuse::failure(unique, codes.invalid))),
{
    lemma_asked(opcode, unique, node_id, ignored, payload);
}

/// Where the known files cannot be had, a request that needs them is answered with the reason.
pub proof fn law_lost_files_are_told(
    error: DeviceError,
    codes: ErrorCodes,
    opcode: u32,
    unique: u64,
    node_id: u64,
    ignored: Seq<u8>,
    payload: Seq<u8>,
)
    requires
        ignored.len() == 16,
        40 + payload.len() <= u32::MAX,
        opcode == 3 || opcode == 14 || opcode == 27 || ((opcode == 15 || opcode == 28)
            && payload.len() >= 24),
    ensures
        executed(Err(error), codes, asked(opcode, unique, node_id, ignored, payload)) == Ok::<
            Step,
            DeviceError,
        >(Step::Reply(fuse::failure(unique, fuse::spec_errno(error, codes)))),
{
    lemma_asked(opcode, unique, node_id, ignored, payload);
}

/// An entry that the host cannot describe, or whose name is no text, ends the listing with an error
/// and leaves it and the known files as they are; a symbolic link is passed over whatever its name.
pub proof fn law_unlistable_entries(
    listing: Listing,
    inodes: Inodes,
    name: Option<Seq<char>>,
    error: IoError,
    metadata: FileMetadata,
)
    ensures
        ({
            let progress = listing.offered(inodes, Entry { name, found: Err(error) });
            &&& progress.result == Err::<bool, DeviceError>(DeviceError::Io(error))
            &&& progress.listing == listing
            &&& progress.inodes == inodes
        }),
        ({
            let progress = listing.offered(inodes, Entry { name: None, found: Ok(metadata) });
            &&& metadata.symlink ==> progress.result == Ok::<bool, DeviceError>(true)
            &&& !metadata.symlink ==> progress.result == Err::<bool, DeviceError>(
                DeviceError::Descriptor("non-UTF-8 virtio-fs name"),
            ) && progress.listing == listing
            &&& progress.inodes == inodes
        }),
{
}

/// A request of which bytes are missing is answered with the code for a malformed one, whatever it
/// asks for.
pub proof fn law_cut_requests_are_refused(
    table: Result<Inodes, DeviceError>,
    codes: ErrorCodes,
    opcode: u32,
    unique: u64,
    node_id: u64,
    ignored: Seq<u8>,
    payload: Seq<u8>,
    kept: int,
)
    requires
        ignored.len() == 16,
        40 + payload.len() <= u32::MAX,
        0 <= kept < payload.len(),
    ensures
        executed(
            table,
            codes,
            asked(opcode, unique, node_id, ignored, payload).take(40 + kept),
        ) == Ok::<Step, DeviceError>(Step::Reply(fuse::failure(unique, codes.invalid))),
{
    let whole = asked(opcode, unique, node_id, ignored, payload);
    let cut = whole.take(40 + kept);
    let length = (40 + payload.len()) as u32;
    lemma_asked(opcode, unique, node_id, ignored, payload);
    bytes::lemma_le_bytes_len(length as nat, 4);
    bytes::lemma_le_bytes_len(opcode as nat, 4);
    bytes::lemma_le_bytes_len(unique as nat, 8);
    bytes::lemma_le_bytes_len(node_id as nat, 8);
    fuse::law_request_headers(length, opcode, unique, node_id, ignored + payload.take(kept));
    assert(cut =~= bytes::le_bytes(length as nat, 4) + bytes::le_bytes(opcode as nat, 4)
        + bytes::le_bytes(unique as nat, 8) + bytes::le_bytes(node_id as nat, 8) + (ignored
        + payload.take(kept)));
}

} // verus!
