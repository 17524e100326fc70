//! A directory read page by page.

use vstd::prelude::*;

use crate::bytes;
use crate::error::DeviceError;
use crate::fuse;
use crate::fuse::DIRENT_HEADER_SIZE;
use crate::inodes;
use crate::inodes::Inodes;
use crate::session;
use crate::session::{Entry, Listing};

verus! {

/// Whether an entry is a symbolic link, which is not listed.
pub open spec fn is_link(entry: Entry) -> bool {
    entry.found matches Ok(metadata) && metadata.symlink
}

/// The name of an entry that is listed, as bytes.
pub open spec fn text_of(entry: Entry) -> Seq<u8> {
    vstd::utf8::encode_utf8(entry.name->0)
}

/// The path of an entry that is listed.
pub open spec fn path_of(directory: Seq<char>, entry: Entry) -> Seq<char> {
    inodes::spec_child_path(directory, entry.name->0)
}

/// Whether the host can describe an entry, and its record fits a page of `maximum` bytes.
pub open spec fn is_listable(entry: Entry, maximum: nat) -> bool {
    &&& entry.found is Ok
    &&& !is_link(entry) ==> {
        &&& entry.name is Some
        &&& text_of(entry).len() <= u32::MAX
        &&& DIRENT_HEADER_SIZE + text_of(entry).len() + 7 <= usize::MAX
        &&& fuse::dirent_length(text_of(entry)) <= maximum
    }
}

/// Whether every entry can be listed.
pub open spec fn are_listable(entries: Seq<Entry>, maximum: nat) -> bool {
    forall|j: int| 0 <= j < entries.len() ==> is_listable(#[trigger] entries[j], maximum)
}

/// The record of entry `j`, with the number that the entry has among `inodes`; a symbolic
/// link has none.
pub open spec fn record(directory: Seq<char>, inodes: Inodes, entries: Seq<Entry>, j: int) -> Seq<u8> {
    if is_link(entries[j]) {
        Seq::empty()
    } else {
        fuse::spec_dirent(
            inodes.ids[path_of(directory, entries[j])],
            (j + 1) as u64,
            text_of(entries[j]),
            entries[j].found->Ok_0,
        )
    }
}

/// The records of the entries from `from` on and below `to`, in order, each once.
pub open spec fn records(
    directory: Seq<char>,
    inodes: Inodes,
    entries: Seq<Entry>,
    from: int,
    to: int,
) -> Seq<u8>
    decreases to - from,
{
    if from >= to {
        Seq::empty()
    } else {
        records(directory, inodes, entries, from, to - 1) + record(
            directory,
            inodes,
            entries,
            to - 1,
        )
    }
}

/// Where the last record of a page says that the listing goes on.
pub open spec fn last_offset(page: Seq<u8>) -> u64
    decreases page.len(),
{
    let name = bytes::le_field(page, 16, 4);
    let length = DIRENT_HEADER_SIZE as nat + name + fuse::padding(name);
    if page.len() <= length {
        bytes::le_field(page, 8, 8) as u64
    } else {
        last_offset(page.skip(length as int))
    }
}

/// The pages of a directory, and the files that are then known.
#[verifier::ext_equal]
pub struct Pages {
    pub pages: Seq<Seq<u8>>,
    pub inodes: Inodes,
}

/// What a driver gets that reads a directory page by page: the first page from `offset`
/// on, each other one from where the last record of the page before says, until a page is
/// empty.
pub open spec fn paged(
    directory: Seq<char>,
    offset: u64,
    maximum: nat,
    inodes: Inodes,
    entries: Seq<Entry>,
) -> Pages
    decreases entries.len() - offset,
{
    let progress = Listing::start(directory, offset, maximum).through(inodes, entries);
    let page = progress.listing.entries;
    let next = last_offset(page);
    if page.len() == 0 || !(offset < next <= entries.len()) {
        Pages { pages: Seq::empty(), inodes: progress.inodes }
    } else {
        let rest = paged(directory, next, maximum, progress.inodes, entries);
        Pages { pages: seq![page] + rest.pages, inodes: rest.inodes }
    }
}

/// Whether the first `count` entries have a number, apart from symbolic links.
pub open spec fn are_numbered(
    directory: Seq<char>,
    inodes: Inodes,
    entries: Seq<Entry>,
    count: int,
) -> bool {
    forall|j: int|
        0 <= j < count && !is_link(#[trigger] entries[j]) ==> inodes.ids.contains_key(
            path_of(directory, entries[j]),
        )
}

/// Whether every path that had a number has kept it.
spec fn extends(after: Inodes, before: Inodes) -> bool {
    forall|path: Seq<char>| #[trigger]
        before.ids.contains_key(path) ==> after.ids.contains_key(path) && after.ids[path]
            == before.ids[path]
}

/// The greater of two numbers.
spec fn greater(a: int, b: int) -> int {
    if a < b {
        b
    } else {
        a
    }
}

proof fn lemma_records_split(
    directory: Seq<char>,
    inodes: Inodes,
    entries: Seq<Entry>,
    from: int,
    middle: int,
    to: int,
)
    requires
        from <= middle <= to,
    ensures
        records(directory, inodes, entries, from, to) == records(
            directory,
            inodes,
            entries,
            from,
            middle,
        ) + records(directory, inodes, entries, middle, to),
    decreases to - middle,
{
    let front = records(directory, inodes, entries, from, middle);
    if middle == to {
        assert(front + Seq::<u8>::empty() =~= front);
    } else {
        lemma_records_split(directory, inodes, entries, from, middle, to - 1);
        let back = records(directory, inodes, entries, middle, to - 1);
        let last = record(directory, inodes, entries, to - 1);
        assert(front + (back + last) =~= front + back + last);
    }
}

proof fn lemma_records_keep(
    directory: Seq<char>,
    before: Inodes,
    after: Inodes,
    entries: Seq<Entry>,
    from: int,
    to: int,
)
    requires
        0 <= from,
        are_numbered(directory, before, entries, to),
        extends(after, before),
    ensures
        records(directory, after, entries, from, to) == records(
            directory,
            before,
            entries,
            from,
            to,
        ),
    decreases to - from,
{
    if from < to {
        lemma_records_keep(directory, before, after, entries, from, to - 1);
        if !is_link(entries[to - 1]) {
            assert(before.ids.contains_key(path_of(directory, entries[to - 1])));
        }
    }
}

proof fn lemma_record_length(
    directory: Seq<char>,
    inodes: Inodes,
    entries: Seq<Entry>,
    maximum: nat,
    j: int,
)
    requires
        are_listable(entries, maximum),
        0 <= j < entries.len() <= u64::MAX,
    ensures
        record(directory, inodes, entries, j).len() % 8 == 0,
        !is_link(entries[j]) ==> record(directory, inodes, entries, j).len()
            == fuse::dirent_length(text_of(entries[j])),
{
    assert(is_listable(entries[j], maximum));
    if !is_link(entries[j]) {
        fuse::law_dirent_is_read_back(
            inodes.ids[path_of(directory, entries[j])],
            (j + 1) as u64,
            text_of(entries[j]),
            entries[j].found->Ok_0,
        );
    }
}

proof fn lemma_records_length(
    directory: Seq<char>,
    inodes: Inodes,
    entries: Seq<Entry>,
    maximum: nat,
    from: int,
    to: int,
)
    requires
        are_listable(entries, maximum),
        0 <= from,
        to <= entries.len() <= u64::MAX,
    ensures
        records(directory, inodes, entries, from, to).len() % 8 == 0,
    decreases to - from,
{
    if from < to {
        lemma_records_length(directory, inodes, entries, maximum, from, to - 1);
        lemma_record_length(directory, inodes, entries, maximum, to - 1);
    }
}

/// The last record of a page that is not empty says that the listing goes on behind the
/// entry it is of, and behind that entry the page has passed over symbolic links only.
proof fn lemma_last_offset(
    directory: Seq<char>,
    inodes: Inodes,
    entries: Seq<Entry>,
    maximum: nat,
    from: int,
    to: int,
) -> (next: int)
    requires
        are_listable(entries, maximum),
        0 <= from <= to <= entries.len() <= u64::MAX,
        records(directory, inodes, entries, from, to).len() > 0,
    ensures
        from < next <= to,
        last_offset(records(directory, inodes, entries, from, to)) == next,
        records(directory, inodes, entries, from, next) == records(
            directory,
            inodes,
            entries,
            from,
            to,
        ),
    decreases to - from,
{
    let page = records(directory, inodes, entries, from, to);
    let first = record(directory, inodes, entries, from);
    let rest = records(directory, inodes, entries, from + 1, to);
    assert(from < to);
    lemma_records_split(directory, inodes, entries, from, from + 1, to);
    assert(records(directory, inodes, entries, from, from) =~= Seq::empty());
    assert(records(directory, inodes, entries, from, from + 1) =~= first);
    assert(page == first + rest);
    lemma_record_length(directory, inodes, entries, maximum, from);
    assert(is_listable(entries[from], maximum));
    if !is_link(entries[from]) {
        let text = text_of(entries[from]);
        fuse::law_dirent_is_read_back(
            inodes.ids[path_of(directory, entries[from])],
            (from + 1) as u64,
            text,
            entries[from].found->Ok_0,
        );
        assert(page.subrange(16, 20) =~= first.subrange(16, 20));
        assert(page.subrange(8, 16) =~= first.subrange(8, 16));
        assert(page.skip(first.len() as int) =~= rest);
    } else {
        assert(page =~= rest);
    }
    if rest.len() == 0 {
        assert(page =~= first);
        from + 1
    } else {
        let next = lemma_last_offset(directory, inodes, entries, maximum, from + 1, to);
        lemma_records_split(directory, inodes, entries, from, from + 1, next);
        next
    }
}

/// One page: it lists the entries from where it starts up to the first that does not fit,
/// or all.
proof fn lemma_page(listing: Listing, inodes: Inodes, entries: Seq<Entry>, seen: int)
    requires
        inodes.wf(),
        are_listable(entries, listing.maximum),
        entries.len() <= u64::MAX,
        listing.offset <= listing.index <= seen <= entries.len(),
        are_numbered(listing.directory, inodes, entries, seen),
        inodes.next + (entries.len() - seen) <= u64::MAX,
    ensures
        ({
            let progress = listing.through(inodes, entries.skip(listing.index as int));
            let stop = progress.listing.index as int;
            let after = progress.inodes;
            let seen_after = greater(
                seen,
                if progress.result == Ok::<bool, DeviceError>(true) {
                    stop
                } else {
                    stop + 1
                },
            );
            &&& after.wf()
            &&& extends(after, inodes)
            &&& listing.index <= stop <= entries.len()
            &&& seen_after <= entries.len()
            &&& are_numbered(listing.directory, after, entries, seen_after)
            &&& after.next + (entries.len() - seen_after) <= u64::MAX
            &&& progress.listing.entries == listing.entries + records(
                listing.directory,
                after,
                entries,
                listing.index as int,
                stop,
            )
            &&& progress.result == Ok::<bool, DeviceError>(true) && stop == entries.len() || {
                &&& progress.result == Ok::<bool, DeviceError>(false)
                &&& stop < entries.len()
                &&& !is_link(entries[stop])
                &&& progress.listing.entries.len() + fuse::dirent_length(text_of(entries[stop]))
                    > listing.maximum
            }
        }),
    decreases entries.len() - listing.index,
{
    let directory = listing.directory;
    let i = listing.index as int;
    let left = entries.skip(i);
    let nothing = records(directory, inodes, entries, i, i);
    assert(listing.entries + nothing =~= listing.entries);
    if i < entries.len() {
        let entry = entries[i];
        let progress = listing.through(inodes, left);
        assert(left[0] == entry);
        assert(left.drop_first() =~= entries.skip(i + 1));
        assert(is_listable(entry, listing.maximum));
        if is_link(entry) {
            let next = listing.advanced();
            lemma_page(next, inodes, entries, greater(seen, i + 1));
            let after = progress.inodes;
            let stop = progress.listing.index as int;
            lemma_records_split(directory, after, entries, i, i + 1, stop);
            assert(records(directory, after, entries, i, i) =~= Seq::empty());
            assert(records(directory, after, entries, i, i + 1) =~= Seq::empty());
            assert(records(directory, after, entries, i, stop) =~= records(
                directory,
                after,
                entries,
                i + 1,
                stop,
            ));
        } else {
            let path = path_of(directory, entry);
            let named = inodes.assign(path).1;
            inodes::lemma_assign_wf(inodes, path);
            if i < seen {
                assert(inodes.ids.contains_key(path));
            }
            let id = inodes.assign(path).0->Ok_0;
            assert(named.ids.contains_key(path) && named.ids[path] == id);
            assert(extends(named, inodes));
            assert(are_numbered(directory, named, entries, greater(seen, i + 1)));
            let line = fuse::spec_dirent(
                id,
                (i + 1) as u64,
                text_of(entry),
                entry.found->Ok_0,
            );
            assert(line == record(directory, named, entries, i));
            lemma_record_length(directory, named, entries, listing.maximum, i);
            if listing.entries.len() + line.len() <= listing.maximum {
                let next = Listing { entries: listing.entries + line, ..listing.advanced() };
                lemma_page(next, named, entries, greater(seen, i + 1));
                let after = progress.inodes;
                let stop = progress.listing.index as int;
                assert(named.ids.contains_key(path));
                assert(line == record(directory, after, entries, i));
                lemma_records_split(directory, after, entries, i, i + 1, stop);
                assert(records(directory, after, entries, i, i) =~= Seq::empty());
                assert(records(directory, after, entries, i, i + 1) =~= line);
                let rest = records(directory, after, entries, i + 1, stop);
                assert(listing.entries + line + rest =~= listing.entries + (line + rest));
            } else {
                assert(listing.entries + records(directory, named, entries, i, i)
                    =~= listing.entries);
            }
        }
    }
}

proof fn lemma_pages(
    directory: Seq<char>,
    offset: u64,
    maximum: nat,
    inodes: Inodes,
    entries: Seq<Entry>,
    seen: int,
)
    requires
        inodes.wf(),
        are_listable(entries, maximum),
        entries.len() <= u64::MAX,
        offset <= seen <= entries.len(),
        are_numbered(directory, inodes, entries, seen),
        inodes.next + (entries.len() - seen) <= u64::MAX,
    ensures
        ({
            let read = paged(directory, offset, maximum, inodes, entries);
            &&& read.inodes.wf()
            &&& extends(read.inodes, inodes)
            &&& are_numbered(directory, read.inodes, entries, entries.len() as int)
            &&& read.pages.flatten() == records(
                directory,
                read.inodes,
                entries,
                offset as int,
                entries.len() as int,
            )
            &&& forall|k: int|
                0 <= k < read.pages.len() ==> 0 < (#[trigger] read.pages[k]).len() <= maximum
                    && read.pages[k].len() % 8 == 0
        }),
    decreases entries.len() - offset,
{
    let count = entries.len() as int;
    let started = Listing::start(directory, offset, maximum);
    let from = Listing { index: offset, ..started };
    let progress = started.through(inodes, entries);
    session::law_listing_resumes(directory, offset, maximum, inodes, entries);
    session::law_listing_fits(started, inodes, entries);
    lemma_page(from, inodes, entries, seen);
    let named = progress.inodes;
    let stop = progress.listing.index as int;
    let page = progress.listing.entries;
    assert(page =~= records(directory, named, entries, offset as int, stop));
    lemma_records_length(directory, named, entries, maximum, offset as int, stop);
    if page.len() == 0 {
        if stop < count {
            assert(is_listable(entries[stop], maximum));
        }
    } else {
        let next = lemma_last_offset(directory, named, entries, maximum, offset as int, stop);
        let seen_after = greater(
            seen,
            if progress.result == Ok::<bool, DeviceError>(true) {
                stop
            } else {
                stop + 1
            },
        );
        lemma_pages(directory, next as u64, maximum, named, entries, seen_after);
        let rest = paged(directory, next as u64, maximum, named, entries);
        let read = paged(directory, offset, maximum, inodes, entries);
        assert(read.pages == seq![page] + rest.pages);
        assert(read.pages.drop_first() =~= rest.pages);
        assert(read.pages.first() == page);
        assert(are_numbered(directory, named, entries, next));
        lemma_records_keep(directory, named, rest.inodes, entries, offset as int, next);
        lemma_records_split(directory, rest.inodes, entries, offset as int, next, count);
        assert forall|path: Seq<char>| #[trigger] inodes.ids.contains_key(path) implies {
            &&& rest.inodes.ids.contains_key(path)
            &&& rest.inodes.ids[path] == inodes.ids[path]
        } by {
            assert(named.ids.contains_key(path));
        }
        assert forall|k: int| 0 <= k < read.pages.len() implies 0 < (#[trigger] read.pages[k]).len()
            <= maximum && read.pages[k].len() % 8 == 0 by {
            if k > 0 {
                assert(read.pages[k] == rest.pages[k - 1]);
            }
        }
    }
}

/// A driver that reads a directory page by page, as long as the directory stays the same
/// and a page has room for each record, gets a record of every entry that is no symbolic
/// link, exactly once, in the order of the directory.  The record of entry `j` says that
/// the listing goes on at `j + 1` and names the entry by the number that it has from then
/// on, which no other path has.  No page is longer than the driver takes, and all have
/// whole multiples of eight bytes.
pub proof fn law_pages_list_every_entry_once(
    directory: Seq<char>,
    maximum: nat,
    inodes: Inodes,
    entries: Seq<Entry>,
)
    requires
        inodes.wf(),
        are_listable(entries, maximum),
        inodes.next + entries.len() <= u64::MAX,
    ensures
        ({
            let read = paged(directory, 0, maximum, inodes, entries);
            &&& read.inodes.wf()
            &&& read.pages.flatten() == records(
                directory,
                read.inodes,
                entries,
                0,
                entries.len() as int,
            )
            &&& are_numbered(directory, read.inodes, entries, entries.len() as int)
            &&& forall|path: Seq<char>|
                inodes.ids.contains_key(path) ==> #[trigger] read.inodes.ids.contains_key(path)
                    && read.inodes.ids[path] == inodes.ids[path]
            &&& forall|k: int|
                0 <= k < read.pages.len() ==> 0 < (#[trigger] read.pages[k]).len() <= maximum
                    && read.pages[k].len() % 8 == 0
        }),
{
    lemma_pages(directory, 0, maximum, inodes, entries, 0);
}

} // verus!
