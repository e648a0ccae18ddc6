//! What a faithful device answers: the model that relates recorded accesses to item
//! contents.

use vstd::prelude::*;

use crate::bytes::be_u32;
use crate::directory::{is_directory_scan, scan_count, scan_records};
use crate::file::{decode_record, FileView, RECORD_LEN};
use crate::transport::{read_data, Access, DIRECTORY_KEY};

verus! {

/// The byte at position `pos` of item `key`, zero past its end; `contents` gives the bytes
/// of each item (an item the device does not have is empty).
pub open spec fn item_byte(contents: spec_fn(u16) -> Seq<u8>, key: u16, pos: int) -> u8 {
    if 0 <= pos < contents(key).len() {
        contents(key)[pos]
    } else {
        0
    }
}

/// The `n` bytes of item `key` from position `start` on.
pub open spec fn item_bytes(contents: spec_fn(u16) -> Seq<u8>, key: u16, start: int, n: nat) -> Seq<
    u8,
> {
    Seq::new(n, |i: int| item_byte(contents, key, start + i))
}

/// The accesses `t` are answered as a device holding `contents` answers them, when item
/// `key` is selected and reads stand at `offset`: a selection rewinds to the start of
/// the item selected, and each read gives the next bytes of the selected item. Nothing is
/// said of what follows a DMA transfer, during which the device may change its items.
pub open spec fn answered_by(
    contents: spec_fn(u16) -> Seq<u8>,
    key: u16,
    offset: int,
    t: Seq<Access>,
) -> bool
    decreases t.len(),
{
    if t.len() == 0 {
        true
    } else {
        match t[0] {
            Access::Select(k) => answered_by(contents, k, 0, t.drop_first()),
            Access::Read(b) => b == item_bytes(contents, key, offset, b.len()) && answered_by(
                contents,
                key,
                offset + b.len(),
                t.drop_first(),
            ),
            _ => true,
        }
    }
}

/// The selected key and read position after access `a`, from `key` and `offset`.
pub open spec fn cursor_step(key: u16, offset: int, a: Access) -> (u16, int) {
    match a {
        Access::Select(k) => (k, 0),
        Access::Read(b) => (key, offset + b.len()),
        _ => (key, offset),
    }
}

/// The selected key and read position after the accesses `t`, from `key` and `offset`.
pub open spec fn cursor_after(key: u16, offset: int, t: Seq<Access>) -> (u16, int)
    decreases t.len(),
{
    if t.len() == 0 {
        (key, offset)
    } else {
        let (k, o) = cursor_step(key, offset, t[0]);
        cursor_after(k, o, t.drop_first())
    }
}

/// Accesses answered by a device holding `contents`, followed by more accesses answered by
/// it from where the first left off, are answered by it; the cursor ends where the second
/// part leaves it.
pub proof fn lemma_answered_by_concat(
    contents: spec_fn(u16) -> Seq<u8>,
    key: u16,
    offset: int,
    t1: Seq<Access>,
    t2: Seq<Access>,
)
    requires
        answered_by(contents, key, offset, t1),
        answered_by(contents, cursor_after(key, offset, t1).0, cursor_after(key, offset, t1).1, t2),
        forall|i: int| 0 <= i < t1.len() ==> (#[trigger] t1[i] is Select || t1[i] is Read),
    ensures
        answered_by(contents, key, offset, t1 + t2),
        cursor_after(key, offset, t1 + t2) == cursor_after(
            cursor_after(key, offset, t1).0,
            cursor_after(key, offset, t1).1,
            t2,
        ),
    decreases t1.len(),
{
    if t1.len() == 0 {
        assert(t1 + t2 =~= t2);
    } else {
        let (k, o) = cursor_step(key, offset, t1[0]);
        let rest = t1.drop_first();
        assert((t1 + t2)[0] == t1[0]);
        assert((t1 + t2).drop_first() =~= rest + t2);
        assert(t1[0] is Select || t1[0] is Read);
        assert forall|i: int| 0 <= i < rest.len() implies (#[trigger] rest[i] is Select || rest[i] is Read) by {
            assert(rest[i] == t1[i + 1]);
        }
        lemma_answered_by_concat(contents, k, o, rest, t2);
    }
}

/// The directory of a device holding `contents`: as many records as the first four bytes
/// of the directory item count, decoded.
pub open spec fn directory_of(contents: spec_fn(u16) -> Seq<u8>) -> Seq<FileView> {
    Seq::new(
        be_u32(item_bytes(contents, DIRECTORY_KEY, 0, 4)) as nat,
        |i: int| decode_record(item_bytes(contents, DIRECTORY_KEY, 4 + RECORD_LEN * i, RECORD_LEN as nat)),
    )
}

/// Whole-record reads answered from the directory item, starting at record `first`, give
/// the records in order.
proof fn lemma_record_reads(contents: spec_fn(u16) -> Seq<u8>, first: int, s: Seq<Access>)
    requires
        forall|i: int| 0 <= i < s.len() ==> #[trigger] s[i] is Read && read_data(s[i]).len() == RECORD_LEN,
        answered_by(contents, DIRECTORY_KEY, 4 + RECORD_LEN * first, s),
    ensures
        forall|i: int|
            0 <= i < s.len() ==> read_data(#[trigger] s[i]) == item_bytes(
                contents,
                DIRECTORY_KEY,
                4 + RECORD_LEN * (first + i),
                RECORD_LEN as nat,
            ),
    decreases s.len(),
{
    if s.len() > 0 {
        let rest = s.drop_first();
        assert(s[0] is Read && read_data(s[0]).len() == RECORD_LEN);
        assert forall|i: int| 0 <= i < rest.len() implies #[trigger] rest[i] is Read && read_data(
            rest[i],
        ).len() == RECORD_LEN by {
            assert(rest[i] == s[i + 1]);
        }
        assert(4 + RECORD_LEN * first + RECORD_LEN == 4 + RECORD_LEN * (first + 1));
        lemma_record_reads(contents, first + 1, rest);
        assert forall|i: int| 0 <= i < s.len() implies read_data(#[trigger] s[i]) == item_bytes(
            contents,
            DIRECTORY_KEY,
            4 + RECORD_LEN * (first + i),
            RECORD_LEN as nat,
        ) by {
            if i > 0 {
                assert(s[i] == rest[i - 1]);
                assert(first + 1 + (i - 1) == first + i);
            }
        }
    }
}

/// A directory scan answered by a device holding `contents` reads the count of that
/// device's directory, and then its records from the first on.
pub proof fn lemma_scan_reads_directory(
    contents: spec_fn(u16) -> Seq<u8>,
    key: u16,
    offset: int,
    t: Seq<Access>,
)
    requires
        is_directory_scan(t),
        answered_by(contents, key, offset, t),
        scan_records(t).len() <= scan_count(t),
    ensures
        scan_count(t) == directory_of(contents).len(),
        scan_records(t) == directory_of(contents).take(scan_records(t).len() as int),
{
    let s1 = t.drop_first();
    let s2 = s1.drop_first();
    let b = read_data(t[1]);
    assert(answered_by(contents, DIRECTORY_KEY, 0, s1));
    assert(s1[0] == Access::Read(b));
    assert(b == item_bytes(contents, DIRECTORY_KEY, 0, 4));
    assert(answered_by(contents, DIRECTORY_KEY, 4, s2));
    assert(4 + RECORD_LEN * 0 == 4);
    assert forall|i: int| 0 <= i < s2.len() implies #[trigger] s2[i] is Read && read_data(
        s2[i],
    ).len() == RECORD_LEN by {
        assert(s2[i] == t[i + 2]);
    }
    lemma_record_reads(contents, 0, s2);
    let recs = scan_records(t);
    let dir = directory_of(contents);
    assert forall|i: int| 0 <= i < recs.len() implies recs[i] == dir[i] by {
        assert(s2[i] == t[i + 2]);
    }
    assert(recs =~= dir.take(recs.len() as int));
}

/// Entry `i` is the first of `dir` named `name`.
pub open spec fn first_named(dir: Seq<FileView>, name: Seq<u8>, i: int) -> bool {
    &&& 0 <= i < dir.len()
    &&& dir[i].name == name
    &&& forall|k: int| 0 <= k < i ==> dir[k].name != name
}

/// A single-name lookup over a scan answered by a device holding `contents`, ending as
/// `FwCfg::find_file` ends, finds the first entry of the device's directory with that
/// name after reading the entries up to it; where the directory has no such entry, it
/// finds none after reading each entry once.
pub proof fn lemma_find_in_directory(
    contents: spec_fn(u16) -> Seq<u8>,
    key: u16,
    offset: int,
    name: Seq<u8>,
    t: Seq<Access>,
    found: Option<FileView>,
)
    requires
        is_directory_scan(t),
        answered_by(contents, key, offset, t),
        found matches Some(f) ==> ({
            let recs = scan_records(t);
            &&& 1 <= recs.len() <= scan_count(t)
            &&& f == recs.last()
            &&& f.name == name
            &&& forall|k: int| 0 <= k < recs.len() - 1 ==> recs[k].name != name
        }),
        found is None ==> ({
            &&& scan_records(t).len() == scan_count(t)
            &&& forall|k: int|
                0 <= k < scan_records(t).len() ==> scan_records(t)[k].name != name
        }),
    ensures
        found matches Some(f) ==> ({
            let i = scan_records(t).len() - 1;
            first_named(directory_of(contents), name, i) && f == directory_of(contents)[i]
        }),
        found is None ==> scan_records(t).len() == directory_of(contents).len() && forall|i: int|
            0 <= i < directory_of(contents).len() ==> directory_of(contents)[i].name != name,
{
    lemma_scan_reads_directory(contents, key, offset, t);
    let recs = scan_records(t);
    let dir = directory_of(contents);
    assert forall|k: int| 0 <= k < recs.len() implies recs[k] == dir[k] by {
        assert(recs[k] == dir.take(recs.len() as int)[k]);
    }
    if found is None {
        assert(recs =~= dir);
    }
}

} // verus!
