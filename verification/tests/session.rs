use virtio::error::{DeviceError, IoError};
use virtio::fuse::{
    dirent, error_reply, fuse_errno, read_u32, read_u64, reply, statfs_reply, success_reply,
    ErrorCodes, FileMetadata, FUSE_DESTROY, FUSE_FORGET, FUSE_GETATTR, FUSE_INIT,
    FUSE_IN_HEADER_SIZE, FUSE_LOOKUP, FUSE_OPEN, FUSE_OPENDIR, FUSE_READ, FUSE_READDIR,
    FUSE_RELEASE, FUSE_RELEASEDIR, FUSE_STATFS,
};
use virtio::inodes::{ancestors, check_entry_name, child_path, FsInodes};
use virtio::session::{
    execute_request, getattr_reply, lookup_reply, open_reply, read_reply, readdir_reply, FsListing,
    FsSight, FsStep,
};

const FILE: FileMetadata = FileMetadata { length: 1234, directory: false, symlink: false };

const DIRECTORY: FileMetadata = FileMetadata { length: 0, directory: true, symlink: false };

const LINK: FileMetadata = FileMetadata { length: 0, directory: false, symlink: true };

fn codes() -> ErrorCodes {
    ErrorCodes { invalid: 22, io: 5, fault: 14, unsupported: 38 }
}

/// What the host finds at a path without a directory on the way.
fn seen(found: Result<FileMetadata, IoError>) -> FsSight {
    FsSight { way: Vec::new(), found }
}

fn request(opcode: u32, node_id: u64, payload: &[u8]) -> Vec<u8> {
    let mut request = vec![0; FUSE_IN_HEADER_SIZE];
    let length = (request.len() + payload.len()) as u32;
    request[0..4].copy_from_slice(&length.to_le_bytes());
    request[4..8].copy_from_slice(&opcode.to_le_bytes());
    request[8..16].copy_from_slice(&17u64.to_le_bytes());
    request[16..24].copy_from_slice(&node_id.to_le_bytes());
    request.extend_from_slice(payload);
    request
}

fn read_payload(offset: u64, size: u32) -> Vec<u8> {
    let mut payload = vec![0; 24];
    payload[8..16].copy_from_slice(&offset.to_le_bytes());
    payload[16..20].copy_from_slice(&size.to_le_bytes());
    payload
}

fn answered(inodes: &FsInodes, request: &[u8]) -> Vec<u8> {
    match execute_request(Ok(inodes), &codes(), request).expect("step") {
        FsStep::Reply(reply) => reply,
        other => panic!("{:?}", other),
    }
}

fn failed(reply: &[u8]) -> i32 {
    assert_eq!(reply.len(), 16);
    assert_eq!(reply[0..4], 16u32.to_le_bytes());
    assert_eq!(reply[8..16], 17u64.to_le_bytes());
    i32::from_le_bytes(reply[4..8].try_into().expect("error"))
}

#[test]
fn init_request_returns_a_fuse_reply() {
    let mut request = vec![0; FUSE_IN_HEADER_SIZE + 16];
    let length = u32::try_from(request.len()).expect("length");
    request[0..4].copy_from_slice(&length.to_le_bytes());
    request[4..8].copy_from_slice(&FUSE_INIT.to_le_bytes());
    request[8..16].copy_from_slice(&17u64.to_le_bytes());
    request[16..24].copy_from_slice(&1u64.to_le_bytes());
    request[FUSE_IN_HEADER_SIZE..FUSE_IN_HEADER_SIZE + 4].copy_from_slice(&7u32.to_le_bytes());
    let step = execute_request(Ok(&FsInodes::new()), &ErrorCodes::host(), &request).expect("init reply");
    let reply = match step {
        FsStep::Reply(reply) => reply,
        other => panic!("{:?}", other),
    };
    assert_eq!(
        u32::from_le_bytes(reply[0..4].try_into().expect("length")),
        80
    );
    assert_eq!(
        i32::from_le_bytes(reply[4..8].try_into().expect("error")),
        0
    );
    assert_eq!(
        u64::from_le_bytes(reply[8..16].try_into().expect("unique")),
        17
    );
    assert_eq!(
        u32::from_le_bytes(reply[16 + 24..16 + 28].try_into().expect("time gran")),
        1
    );
    assert_eq!(
        u16::from_le_bytes(reply[16 + 28..16 + 30].try_into().expect("max pages")),
        256
    );
}

#[test]
fn a_handshake_states_its_limits() {
    let inodes = FsInodes::new();
    let mut payload = vec![0; 16];
    payload[0] = 7;
    let reply = answered(&inodes, &request(FUSE_INIT, 1, &payload));
    assert_eq!(reply[16..20], 7u32.to_le_bytes());
    assert_eq!(reply[20..24], 31u32.to_le_bytes());
    assert_eq!(reply[24..28], 1_048_576u32.to_le_bytes());
    assert_eq!(reply[28..36], [0; 8]);
    assert_eq!(reply[36..40], 1_048_576u32.to_le_bytes());
    assert_eq!(reply[46..], [0; 34]);
    payload[0] = 8;
    assert_eq!(failed(&answered(&inodes, &request(FUSE_INIT, 1, &payload))), -22);
    assert_eq!(failed(&answered(&inodes, &request(FUSE_INIT, 1, &payload[..15]))), -22);
}

#[test]
fn malformed_requests_are_answered_with_an_error() {
    let inodes = FsInodes::new();
    assert!(matches!(
        execute_request(Ok(&inodes), &codes(), &[0; 39]),
        Err(DeviceError::Descriptor("short FUSE request header"))
    ));
    let mut long = request(FUSE_STATFS, 1, &[]);
    long.push(0);
    assert_eq!(failed(&answered(&inodes, &long)), -22);
    assert_eq!(failed(&answered(&inodes, &request(99, 1, &[]))), -38);
}

#[test]
fn the_host_tells_errors_apart() {
    let host = ErrorCodes::host();
    assert_eq!(host.invalid, libc::EINVAL);
    assert_eq!(host.io, libc::EIO);
    assert_eq!(host.fault, libc::EFAULT);
    assert_eq!(host.unsupported, libc::ENOSYS);
    let all = [0, host.invalid, host.io, host.fault, host.unsupported];
    for (k, code) in all.iter().enumerate() {
        assert!(!all[k + 1..].contains(code));
    }
}

#[test]
fn some_requests_are_not_answered() {
    let inodes = FsInodes::new();
    for opcode in [FUSE_FORGET, FUSE_RELEASE, FUSE_RELEASEDIR, FUSE_DESTROY] {
        assert!(answered(&inodes, &request(opcode, 1, &[])).is_empty());
    }
}

#[test]
fn the_file_system_describes_itself() {
    let body = statfs_reply();
    assert_eq!(body.len(), 80);
    assert_eq!(body[40..44], 4096u32.to_le_bytes());
    assert_eq!(body[44..48], 255u32.to_le_bytes());
    assert_eq!(body[48..52], 4096u32.to_le_bytes());
    let reply = answered(&FsInodes::new(), &request(FUSE_STATFS, 1, &[]));
    assert_eq!(reply[..16], success_reply(17, &[0; 80])[..16]);
    assert_eq!(reply[16..], body[..]);
}

#[test]
fn lookups_name_files_below_the_root() {
    let mut inodes = FsInodes::new();
    let path = match execute_request(Ok(&inodes), &codes(), &request(FUSE_LOOKUP, 1, b"sub\0")) {
        Ok(FsStep::Lookup { unique: 17, way, path }) => {
            assert!(way.is_empty());
            path
        }
        other => panic!("{:?}", other),
    };
    assert_eq!(path, "sub");
    let reply = lookup_reply(&mut inodes, &codes(), 17, path, true, seen(Ok(DIRECTORY)));
    assert_eq!(reply[0..4], 144u32.to_le_bytes());
    assert_eq!(reply[16..24], 2u64.to_le_bytes());
    assert_eq!(reply[32..40], 1u64.to_le_bytes());
    assert_eq!(reply[40..48], 1u64.to_le_bytes());
    assert_eq!(reply[56..64], 2u64.to_le_bytes());
    assert_eq!(reply[116..120], 0o040555u32.to_le_bytes());
    let path = match execute_request(
        Ok(&inodes),
        &codes(),
        &request(FUSE_LOOKUP, 2, "f\u{e9}\0".as_bytes()),
    ) {
        Ok(FsStep::Lookup { way, path, .. }) => {
            assert_eq!(way, ["sub"]);
            path
        }
        other => panic!("{:?}", other),
    };
    assert_eq!(path, "sub/f\u{e9}");
    let reply = lookup_reply(&mut inodes, &codes(), 17, path.clone(), true, seen(Ok(FILE)));
    assert_eq!(reply[16..24], 3u64.to_le_bytes());
    assert_eq!(reply[64..72], 1234u64.to_le_bytes());
    assert_eq!(reply[116..120], 0o100444u32.to_le_bytes());
    assert_eq!(inodes.path(3), Some(path.clone()));
    let again = lookup_reply(&mut inodes, &codes(), 17, path, true, seen(Ok(FILE)));
    assert_eq!(again, reply);
    assert_eq!(inodes.path(4), None);
}

#[test]
fn unsafe_names_are_not_looked_up() {
    let inodes = FsInodes::new();
    let names: [&[u8]; 7] =
        [b"", b"\0", b".\0", b"..\0", b"a/b\0", b"name", b"\xff\0"];
    for name in names {
        assert_eq!(failed(&answered(&inodes, &request(FUSE_LOOKUP, 1, name))), -22);
    }
    assert_eq!(failed(&answered(&inodes, &request(FUSE_LOOKUP, 5, b"name\0"))), -22);
    assert!(check_entry_name("..."));
    assert!(check_entry_name(".hidden"));
    assert!(!check_entry_name("/"));
}

#[test]
fn what_the_host_cannot_find_is_not_known() {
    let mut inodes = FsInodes::new();
    let missing = IoError::Os { code: 2, text: String::from("No such file or directory") };
    let reply = lookup_reply(&mut inodes, &codes(), 17, String::from("gone"), true, seen(Err(missing)));
    assert_eq!(failed(&reply), -2);
    let reply = lookup_reply(&mut inodes, &codes(), 17, String::from("link"), true, seen(Ok(LINK)));
    assert_eq!(failed(&reply), -22);
    assert_eq!(inodes.path(1), Some(String::new()));
    assert_eq!(inodes.path(2), None);
}

#[test]
fn numbers_stay_with_their_paths() {
    let mut inodes = FsInodes::new();
    assert_eq!(inodes.id_for_path(String::new()).expect("root"), 1);
    assert_eq!(inodes.id_for_path(String::from("a")).expect("a"), 2);
    assert_eq!(inodes.id_for_path(String::from("b")).expect("b"), 3);
    assert_eq!(inodes.id_for_path(String::from("a")).expect("a"), 2);
    assert_eq!(inodes.path(2), Some(String::from("a")));
    assert_eq!(child_path("", "a"), "a");
    assert_eq!(child_path("a", "b"), "a/b");
}

#[test]
fn attributes_and_handles_are_given_for_known_files() {
    let inodes = FsInodes::new();
    match execute_request(Ok(&inodes), &codes(), &request(FUSE_GETATTR, 1, &[])) {
        Ok(FsStep::GetAttr { unique: 17, node_id: 1, way, path }) => {
            assert!(way.is_empty());
            assert_eq!(path, "");
        }
        other => panic!("{:?}", other),
    }
    for opcode in [FUSE_OPEN, FUSE_OPENDIR] {
        assert!(matches!(
            execute_request(Ok(&inodes), &codes(), &request(opcode, 1, &[])),
            Ok(FsStep::Open { unique: 17, node_id: 1, .. })
        ));
    }
    for opcode in [FUSE_GETATTR, FUSE_OPEN, FUSE_OPENDIR] {
        assert_eq!(failed(&answered(&inodes, &request(opcode, 2, &[]))), -22);
    }
    let reply = getattr_reply(&codes(), 17, 9, seen(Ok(FILE)));
    assert_eq!(reply.len(), 16 + 104);
    assert_eq!(reply[16..24], 1u64.to_le_bytes());
    assert_eq!(reply[32..40], 9u64.to_le_bytes());
    assert_eq!(reply[40..48], 1234u64.to_le_bytes());
    assert_eq!(reply[96..100], 1u32.to_le_bytes());
    assert_eq!(reply[116..120], 4096u32.to_le_bytes());
    assert_eq!(failed(&getattr_reply(&codes(), 17, 9, seen(Ok(LINK)))), -22);
    let reply = open_reply(&codes(), 17, 9, seen(Ok(DIRECTORY)));
    assert_eq!(reply.len(), 32);
    assert_eq!(reply[16..24], 9u64.to_le_bytes());
    assert_eq!(failed(&open_reply(&codes(), 17, 9, seen(Ok(LINK)))), -22);
}

#[test]
fn reads_are_bounded() {
    let inodes = FsInodes::new();
    match execute_request(Ok(&inodes), &codes(), &request(FUSE_READ, 1, &read_payload(512, 100))) {
        Ok(FsStep::Read { unique: 17, offset: 512, size: 100, .. }) => {}
        other => panic!("{:?}", other),
    }
    match execute_request(Ok(&inodes), &codes(), &request(FUSE_READ, 1, &read_payload(0, u32::MAX))) {
        Ok(FsStep::Read { size: 1_048_576, .. }) => {}
        other => panic!("{:?}", other),
    }
    let short = &read_payload(0, 1)[..23];
    assert_eq!(failed(&answered(&inodes, &request(FUSE_READ, 1, short))), -22);
    assert_eq!(failed(&answered(&inodes, &request(FUSE_READ, 2, &read_payload(0, 1)))), -22);
    let reply = read_reply(&codes(), 17, seen(Ok(FILE)), Ok(b"data".to_vec()));
    assert_eq!(reply, success_reply(17, b"data"));
    let error = IoError::Other { text: String::from("interrupted") };
    assert_eq!(failed(&read_reply(&codes(), 17, seen(Ok(FILE)), Err(error))), -5);
    let missing = IoError::Os { code: 2, text: String::from("No such file or directory") };
    assert_eq!(failed(&read_reply(&codes(), 17, seen(Err(missing)), Ok(Vec::new()))), -2);
}

fn record(bytes: &[u8]) -> (u64, u64, String) {
    let length = u32::from_le_bytes(bytes[16..20].try_into().expect("length")) as usize;
    (
        u64::from_le_bytes(bytes[0..8].try_into().expect("number")),
        u64::from_le_bytes(bytes[8..16].try_into().expect("offset")),
        String::from_utf8(bytes[24..24 + length].to_vec()).expect("name"),
    )
}

fn list(inodes: &mut FsInodes, offset: u64, maximum: usize) -> Vec<u8> {
    let entries = [("one", FILE), ("link", LINK), ("directory", DIRECTORY), ("last", FILE)];
    let mut listing =
        FsListing::start(String::from("d"), true, seen(Ok(DIRECTORY)), offset, maximum).expect("listing");
    for (name, metadata) in entries {
        if listing.skip() {
            continue;
        }
        if !listing.offer(inodes, Some(String::from(name)), Ok(metadata)).expect("offer") {
            break;
        }
    }
    assert!(listing.length() <= maximum);
    readdir_reply(&codes(), 17, Ok(listing))[16..].to_vec()
}

#[test]
fn a_directory_is_listed_in_parts() {
    let mut inodes = FsInodes::new();
    match execute_request(Ok(&inodes), &codes(), &request(FUSE_READDIR, 1, &read_payload(3, 4096))) {
        Ok(FsStep::ReadDir { unique: 17, offset: 3, maximum: 4096, .. }) => {}
        other => panic!("{:?}", other),
    }
    let whole = list(&mut inodes, 0, 4096);
    assert_eq!(whole.len(), 32 + 40 + 32);
    assert_eq!(record(&whole), (2, 1, String::from("one")));
    assert_eq!(record(&whole[32..]), (3, 3, String::from("directory")));
    assert_eq!(whole[32 + 20..32 + 24], 4u32.to_le_bytes());
    assert_eq!(record(&whole[72..]), (4, 4, String::from("last")));
    assert_eq!(whole[72 + 20..72 + 24], 8u32.to_le_bytes());
    assert_eq!(inodes.path(3), Some(String::from("d/directory")));

    let first = list(&mut inodes, 0, 71);
    assert_eq!(first[..], whole[..32]);
    let rest = list(&mut inodes, 1, 4096);
    assert_eq!(rest[..], whole[32..]);
    assert!(list(&mut inodes, 4, 4096).is_empty());
    assert!(list(&mut inodes, 0, 31).is_empty());
}

#[test]
fn symbolic_links_are_not_followed() {
    let mut inodes = FsInodes::new();
    let lookup = lookup_reply(&mut inodes, &codes(), 17, String::from("link"), true, seen(Ok(LINK)));
    assert_eq!(failed(&lookup), -22);
    assert_eq!(failed(&getattr_reply(&codes(), 17, 2, seen(Ok(LINK)))), -22);
    assert_eq!(failed(&open_reply(&codes(), 17, 2, seen(Ok(LINK)))), -22);
    assert_eq!(failed(&read_reply(&codes(), 17, seen(Ok(LINK)), Ok(b"target".to_vec()))), -22);
    assert!(matches!(
        FsListing::start(String::from("link"), true, seen(Ok(LINK)), 0, 64),
        Err(DeviceError::Descriptor("virtio-fs symlink is not supported"))
    ));
}

#[test]
fn links_on_the_way_are_not_followed() {
    let missing = || IoError::Os { code: 2, text: String::from("No such file or directory") };
    let through = |link: bool| FsSight {
        way: vec![Ok(DIRECTORY), Ok(if link { LINK } else { DIRECTORY }), Err(missing())],
        found: Ok(FILE),
    };
    let mut inodes = FsInodes::new();
    let path = String::from("a/b/c/f");
    let lookup = lookup_reply(&mut inodes, &codes(), 17, path.clone(), true, through(true));
    assert_eq!(failed(&lookup), -22);
    assert_eq!(inodes.path(2), None);
    assert_eq!(failed(&getattr_reply(&codes(), 17, 2, through(true))), -22);
    assert_eq!(failed(&open_reply(&codes(), 17, 2, through(true))), -22);
    assert_eq!(failed(&read_reply(&codes(), 17, through(true), Ok(b"target".to_vec()))), -22);
    let sight = FsSight { way: vec![Ok(LINK)], found: Ok(DIRECTORY) };
    assert!(matches!(
        FsListing::start(String::from("link/d"), true, sight, 0, 64),
        Err(DeviceError::Descriptor("virtio-fs symlink is not supported"))
    ));
    // A link on the way is refused before what lies behind it is spoken of.
    let sight = FsSight { way: vec![Ok(LINK)], found: Err(missing()) };
    assert_eq!(failed(&getattr_reply(&codes(), 17, 2, sight)), -22);
    let lookup = lookup_reply(&mut inodes, &codes(), 17, path.clone(), true, through(false));
    assert_eq!(lookup.len(), 144);
    assert_eq!(inodes.path(2), Some(path));
    assert_eq!(
        read_reply(&codes(), 17, through(false), Ok(b"data".to_vec())),
        success_reply(17, b"data")
    );
}

#[test]
fn the_way_to_a_path_is_every_directory_above_it() {
    assert!(ancestors("").is_empty());
    assert!(ancestors("a").is_empty());
    assert_eq!(ancestors("a/b"), ["a"]);
    assert_eq!(ancestors("\u{e9}/b/c"), ["\u{e9}", "\u{e9}/b"]);
    assert_eq!(ancestors(&child_path("a/b", "c")), ["a", "a/b"]);
    let mut inodes = FsInodes::new();
    assert_eq!(inodes.id_for_path(String::from("a/b/c")).expect("number"), 2);
    match execute_request(Ok(&inodes), &codes(), &request(FUSE_READ, 2, &read_payload(0, 1))) {
        Ok(FsStep::Read { way, path, .. }) => {
            assert_eq!(way, ["a", "a/b"]);
            assert_eq!(path, "a/b/c");
        }
        other => panic!("{:?}", other),
    }
    match execute_request(Ok(&inodes), &codes(), &request(FUSE_READDIR, 2, &read_payload(0, 1))) {
        Ok(FsStep::ReadDir { way, .. }) => assert_eq!(way, ["a", "a/b"]),
        other => panic!("{:?}", other),
    }
    match execute_request(Ok(&inodes), &codes(), &request(FUSE_OPEN, 2, &[])) {
        Ok(FsStep::Open { way, .. }) => assert_eq!(way, ["a", "a/b"]),
        other => panic!("{:?}", other),
    }
}

#[test]
fn paths_outside_the_root_are_refused() {
    let mut inodes = FsInodes::new();
    let path = String::from("C:\\x");
    let lookup = lookup_reply(&mut inodes, &codes(), 17, path.clone(), false, seen(Ok(FILE)));
    assert_eq!(failed(&lookup), -22);
    assert_eq!(inodes.path(2), None);
    let missing = IoError::Os { code: 2, text: String::from("No such file or directory") };
    let lookup = lookup_reply(&mut inodes, &codes(), 17, path.clone(), false, seen(Err(missing)));
    assert_eq!(failed(&lookup), -2);
    assert!(matches!(
        FsListing::start(path, false, seen(Ok(DIRECTORY)), 0, 64),
        Err(DeviceError::Descriptor("FUSE_READDIR inode is not a directory"))
    ));
}

#[test]
fn requests_are_answered_without_the_known_files() {
    let answer = |request: &[u8]| {
        let lost = DeviceError::Worker(String::from("virtio-fs inode lock poisoned"));
        match execute_request(Err(lost), &codes(), request).expect("step") {
            FsStep::Reply(reply) => reply,
            other => panic!("{:?}", other),
        }
    };
    assert_eq!(failed(&answer(&request(FUSE_LOOKUP, 1, b"name\0"))), -5);
    assert_eq!(failed(&answer(&request(FUSE_LOOKUP, 1, b"..\0"))), -22);
    for opcode in [FUSE_GETATTR, FUSE_OPEN, FUSE_OPENDIR] {
        assert_eq!(failed(&answer(&request(opcode, 1, &[]))), -5);
    }
    for opcode in [FUSE_READ, FUSE_READDIR] {
        assert_eq!(failed(&answer(&request(opcode, 1, &read_payload(0, 1)))), -5);
        assert_eq!(failed(&answer(&request(opcode, 1, &[]))), -22);
    }
    assert_eq!(answer(&request(FUSE_STATFS, 1, &[]))[16..], statfs_reply()[..]);
    assert!(answer(&request(FUSE_FORGET, 1, &[])).is_empty());
    assert_eq!(failed(&answer(&request(99, 1, &[]))), -38);
}

#[test]
fn pages_list_every_entry_once() {
    for maximum in [40, 64, 72, 104, 4096] {
        let mut inodes = FsInodes::new();
        let mut found = Vec::new();
        let mut offset = 0;
        loop {
            let page = list(&mut inodes, offset, maximum);
            assert!(page.len() <= maximum && page.len() % 8 == 0);
            if page.is_empty() {
                break;
            }
            let mut at = 0;
            while at < page.len() {
                let entry = record(&page[at..]);
                at += dirent(0, 0, &entry.2, &FILE).expect("record").len();
                offset = entry.1;
                found.push(entry);
            }
        }
        assert_eq!(
            found,
            vec![
                (2, 1, String::from("one")),
                (3, 3, String::from("directory")),
                (4, 4, String::from("last")),
            ]
        );
    }
}

#[test]
fn listings_fail_with_the_host() {
    let mut inodes = FsInodes::new();
    let missing = IoError::Os { code: 2, text: String::from("No such file or directory") };
    assert!(matches!(
        FsListing::start(String::new(), true, seen(Err(missing)), 0, 64),
        Err(DeviceError::Descriptor("FUSE_READDIR inode is not a directory"))
    ));
    let refused = FsListing::start(String::new(), true, seen(Ok(FILE)), 0, 64);
    assert!(matches!(
        refused,
        Err(DeviceError::Descriptor("FUSE_READDIR inode is not a directory"))
    ));
    assert_eq!(failed(&readdir_reply(&codes(), 17, refused)), -22);
    let mut listing = FsListing::start(String::new(), true, seen(Ok(DIRECTORY)), 0, 64).expect("listing");
    assert!(matches!(
        listing.offer(&mut inodes, None, Ok(FILE)),
        Err(DeviceError::Descriptor("non-UTF-8 virtio-fs name"))
    ));
    let denied = IoError::Os { code: 13, text: String::from("Permission denied") };
    match listing.offer(&mut inodes, Some(String::from("x")), Err(denied)) {
        Err(error) => assert_eq!(failed(&readdir_reply(&codes(), 17, Err(error))), -13),
        Ok(_) => panic!("listed"),
    }
    let short = &read_payload(0, 1)[..23];
    assert_eq!(failed(&answered(&inodes, &request(FUSE_READDIR, 1, short))), -22);
}

#[test]
fn records_are_padded_to_eight_bytes() {
    for (name, length) in [("", 24), ("a", 32), ("12345678", 32), ("123456789", 40)] {
        let bytes = dirent(1, 2, name, &FILE).expect("record");
        assert_eq!(bytes.len(), length);
        assert_eq!(record(&bytes), (1, 2, String::from(name)));
    }
}

#[test]
fn every_error_has_a_code() {
    let cases = [
        (DeviceError::Io(IoError::PermissionDenied), 5),
        (DeviceError::Descriptor("x"), 22),
        (DeviceError::InvalidLayout("x"), 22),
        (DeviceError::DmaRange { gpa: 0, length: 0 }, 14),
        (DeviceError::DmaAlignment { alignment: 1 }, 14),
        (DeviceError::InvalidQueue { queue: 0, reason: "x" }, 5),
        (DeviceError::Worker(String::from("x")), 5),
        (DeviceError::Down(virtio::error::DeviceDownReason::Stop), 5),
    ];
    for (error, code) in cases {
        assert_eq!(fuse_errno(&error, &codes()), code);
        assert_eq!(failed(&reply(17, &codes(), &Err(error))), -code);
    }
    assert_eq!(error_reply(17, -3)[4..8], 3i32.to_le_bytes());
    assert_eq!(error_reply(17, i32::MIN)[4..8], i32::MIN.to_le_bytes());
}

#[test]
fn fields_beyond_the_request_are_refused() {
    assert_eq!(read_u32(&[1, 2, 3, 4, 5], 1).expect("field"), 0x0504_0302);
    assert_eq!(read_u64(&[1, 0, 0, 0, 0, 0, 0, 2], 0).expect("field"), 0x0200_0000_0000_0001);
    assert!(matches!(
        read_u32(&[1, 2, 3, 4], 1),
        Err(DeviceError::Descriptor("short FUSE field"))
    ));
    assert!(matches!(
        read_u64(&[0; 8], usize::MAX),
        Err(DeviceError::Descriptor("FUSE field overflow"))
    ));
}
