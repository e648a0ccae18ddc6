//! A session with one device: signature check, directory scans, lookups, reads and writes.

use vstd::prelude::*;
use vstd::string::StringSliceAdditionalSpecFns;

use crate::bytes::{le_u32, u32_from_be, u32_from_le};
use crate::directory::{
    all_filled, fill_slots, goes_on, lemma_lookup_prefix, is_directory_scan, lemma_lookup_one, lemma_lookup_push,
    lookup, names_match, requested_names, scan_count, scan_records, slot_view, slot_views,
    stops_at_end,
};
use crate::dma::{dma_outcome, dma_outcome_of, write_control, write_control_word};
use crate::error::{FwCfgError, FwCfgWriteError};
use crate::file::{decode_record, FileView, FwCfgFile, RECORD_LEN};
use crate::model::{
    answered_by, cursor_after, directory_of, first_named, item_bytes, lemma_answered_by_concat,
    lemma_find_in_directory, lemma_scan_reads_directory,
};
use crate::transport::{
    polled_control, read_data, Access, Transport, DIRECTORY_KEY, FEATURE_BITMAP_KEY,
    SIGNATURE_KEY,
};

verus! {

broadcast use vstd::string::group_string_axioms;

/// Bit of the feature bitmap that tells that the device has the DMA interface.
pub const HAS_DMA: u32 = 0x02;

/// The bytes of the signature item of a genuine device: `QEMU`.
pub open spec fn signature_bytes() -> Seq<u8> {
    seq![0x51u8, 0x45u8, 0x4du8, 0x55u8]
}

/// The smaller of two sizes.
pub open spec fn min_len(a: nat, b: nat) -> nat {
    if a < b {
        a
    } else {
        b
    }
}

/// `after` is `before` followed by the accesses of getting the feature bitmap `value`:
/// none when it was cached as `cached`, else selecting the feature item and reading its
/// four little-endian bytes.
pub open spec fn reads_features(
    before: Seq<Access>,
    cached: Option<u32>,
    after: Seq<Access>,
    value: u32,
) -> bool {
    match cached {
        Some(v) => value == v && after == before,
        None => {
            let b = read_data(after.last());
            &&& after == before + seq![Access::Select(FEATURE_BITMAP_KEY), Access::Read(b)]
            &&& b.len() == 4
            &&& value == le_u32(b)
        },
    }
}

/// `after` is `before` followed by selecting the signature item and reading four bytes,
/// which are `QEMU` exactly when `genuine`.
pub open spec fn signature_checked(before: Seq<Access>, after: Seq<Access>, genuine: bool) -> bool {
    let b = read_data(after.last());
    &&& after == before + seq![Access::Select(SIGNATURE_KEY), Access::Read(b)]
    &&& b.len() == 4
    &&& genuine == (b == signature_bytes())
}

/// Every access of `t` is a selection or a read.
pub open spec fn registers_only(t: Seq<Access>) -> bool {
    forall|i: int| 0 <= i < t.len() ==> (#[trigger] t[i] is Select || t[i] is Read)
}

/// Whether `bytes` is the signature of a genuine device.
pub fn is_signature(bytes: &[u8]) -> (r: bool)
    ensures
        r == (bytes@ == signature_bytes()),
{
    if bytes.len() != 4 {
        return false;
    }
    let r = bytes[0] == 0x51 && bytes[1] == 0x45 && bytes[2] == 0x4d && bytes[3] == 0x55;
    assert(r == (bytes@ =~= signature_bytes()));
    r
}

/// A session with one device, which owns the device's registers while it lives.
///
/// The session records, as ghost state, every access it makes and what the device
/// answered; the contracts of its operations are stated over that record.
pub struct FwCfg<T: Transport> {
    transport: T,
    feature_bitmap: Option<u32>,
    log: Ghost<Seq<Access>>,
}

impl<T: Transport> FwCfg<T> {
    /// The accesses the session has made, in order, with the device's answers.
    pub closed spec fn accesses(&self) -> Seq<Access> {
        self.log@
    }

    /// The feature bitmap, once the session has read it.
    pub closed spec fn cached_features(&self) -> Option<u32> {
        self.feature_bitmap
    }

    /// The registers of the session.
    pub closed spec fn registers(&self) -> T {
        self.transport
    }

    /// The feature bitmap the session has cached, or zero.
    pub open spec fn known_features(&self) -> u32 {
        match self.cached_features() {
            Some(v) => v,
            None => 0,
        }
    }

    /// The accesses made so far begin with `before`.
    pub open spec fn extends(&self, before: Seq<Access>) -> bool {
        before.len() <= self.accesses().len() && self.accesses().take(before.len() as int)
            == before
    }

    /// The accesses made after the first `before.len()`.
    pub open spec fn accesses_since(&self, before: Seq<Access>) -> Seq<Access> {
        self.accesses().skip(before.len() as int)
    }

    /// Since `before`, the session has only selected and read; and where the registers of
    /// `before` were faithful, they still are, hold the same items, and answered each of
    /// those accesses as the items say.
    pub open spec fn answered_since(&self, before: FwCfg<T>) -> bool {
        let t = self.accesses_since(before.accesses());
        let r0 = before.registers();
        let r1 = self.registers();
        &&& self.extends(before.accesses())
        &&& registers_only(t)
        &&& r0.faithful() ==> {
            &&& r1.faithful()
            &&& r1.items() == r0.items()
            &&& answered_by(r0.items(), r0.selected_key(), r0.read_offset() as int, t)
            &&& cursor_after(r0.selected_key(), r0.read_offset() as int, t) == (
                r1.selected_key(),
                r1.read_offset() as int,
            )
        }
    }

    /// Accesses answered since `a` up to `b`, then since `b` up to `c`, are answered since `a`.
    proof fn lemma_answered_since_compose(a: FwCfg<T>, b: FwCfg<T>, c: FwCfg<T>)
        requires
            b.answered_since(a),
            c.answered_since(b),
        ensures
            c.answered_since(a),
            c.accesses_since(a.accesses()) == b.accesses_since(a.accesses()) + c.accesses_since(
                b.accesses(),
            ),
    {
        let la = a.accesses().len() as int;
        let lb = b.accesses().len() as int;
        let t1 = b.accesses_since(a.accesses());
        let t2 = c.accesses_since(b.accesses());
        let t = c.accesses_since(a.accesses());
        assert(c.accesses().take(la) =~= a.accesses()) by {
            assert forall|i: int| 0 <= i < la implies c.accesses()[i] == a.accesses()[i] by {
                assert(c.accesses().take(lb)[i] == b.accesses()[i]);
                assert(b.accesses().take(la)[i] == a.accesses()[i]);
            }
        }
        assert(t =~= t1 + t2) by {
            assert forall|i: int| 0 <= i < t1.len() implies t[i] == t1[i] by {
                assert(c.accesses().take(lb)[la + i] == b.accesses()[la + i]);
            }
        }
        assert forall|i: int| 0 <= i < t.len() implies (#[trigger] t[i] is Select || t[i] is Read) by {
            if i < t1.len() {
                assert(t[i] == t1[i]);
            } else {
                assert(t[i] == t2[i - t1.len()]);
            }
        }
        if a.registers().faithful() {
            let r0 = a.registers();
            lemma_answered_by_concat(r0.items(), r0.selected_key(), r0.read_offset() as int, t1, t2);
        }
    }

    /// A selection of `key` and then a read of `b`, answered by faithful registers, read
    /// `b` from the start of item `key`.
    proof fn lemma_select_then_read(a: FwCfg<T>, b: FwCfg<T>, c: FwCfg<T>, key: u16, bytes: Seq<u8>)
        requires
            b.answered_since(a),
            c.answered_since(b),
            c.accesses() == a.accesses() + seq![Access::Select(key), Access::Read(bytes)],
        ensures
            c.answered_since(a),
            a.registers().faithful() ==> bytes == item_bytes(
                a.registers().items(),
                key,
                0,
                bytes.len(),
            ),
    {
        Self::lemma_answered_since_compose(a, b, c);
        let t = c.accesses_since(a.accesses());
        assert(t =~= seq![Access::Select(key), Access::Read(bytes)]);
        assert(t.drop_first()[0] == Access::Read(bytes));
        assert(t.drop_first().drop_first() =~= Seq::<Access>::empty());
        let r0 = a.registers();
        if r0.faithful() {
            assert(answered_by(r0.items(), key, 0, t.drop_first()));
        }
    }

    /// Open a session over `transport`: select the signature item, read four bytes and
    /// check that they are `QEMU`. When they are not, the device is handed back with the
    /// record of those two accesses, and no other access is made.
    pub fn new(transport: T) -> (r: Result<FwCfg<T>, Rejected<T>>)
        ensures
            r matches Ok(f) ==> signature_checked(Seq::empty(), f.accesses(), true)
                && f.cached_features() is None,
            r matches Err(j) ==> signature_checked(Seq::empty(), j.accesses(), false),
            transport.faithful() ==> (r is Ok <==> item_bytes(
                transport.items(),
                SIGNATURE_KEY,
                0,
                4,
            ) == signature_bytes()),
            r matches Ok(f) ==> transport.faithful() ==> f.registers().faithful()
                && f.registers().items() == transport.items() && f.registers().selected_key()
                == SIGNATURE_KEY && f.registers().read_offset() == 4,
    {
        let mut fw_cfg = FwCfg { transport, feature_bitmap: None, log: Ghost(Seq::empty()) };
        let ghost start = fw_cfg;
        let checked = fw_cfg.check_signature();
        proof {
            let t = fw_cfg.accesses_since(start.accesses());
            assert(t =~= fw_cfg.accesses());
            assert(t[0] is Select);
            assert(t.drop_first()[0] is Read);
            let b = read_data(t.drop_first()[0]);
            assert(t.drop_first().drop_first() =~= Seq::<Access>::empty());
            assert(cursor_after(SIGNATURE_KEY, 0, t.drop_first()) == cursor_after(
                SIGNATURE_KEY,
                b.len() as int,
                t.drop_first().drop_first(),
            ));
        }
        match checked {
            Ok(()) => Ok(fw_cfg),
            Err(_) => Err(Rejected { session: fw_cfg }),
        }
    }

    /// Select the signature item and read four bytes: `Ok` exactly when they are `QEMU`.
    pub fn check_signature(&mut self) -> (r: Result<(), FwCfgError>)
        ensures
            signature_checked(old(self).accesses(), final(self).accesses(), r is Ok),
            r matches Err(e) ==> e == FwCfgError::InvalidSignature,
            final(self).cached_features() == old(self).cached_features(),
            final(self).answered_since(*old(self)),
            old(self).registers().faithful() ==> (r is Ok <==> item_bytes(
                old(self).registers().items(),
                SIGNATURE_KEY,
                0,
                4,
            ) == signature_bytes()),
    {
        let mut signature = [0u8; 4];
        let ghost s0 = *self;
        self.select(SIGNATURE_KEY);
        let ghost s1 = *self;
        self.read(&mut signature);
        proof {
            Self::lemma_answered_since_compose(s0, s1, *self);
            let t = self.accesses_since(s0.accesses());
            assert(t =~= seq![Access::Select(SIGNATURE_KEY), Access::Read(signature@)]);
            assert(t.drop_first()[0] == Access::Read(signature@));
            assert(t.drop_first().drop_first() =~= Seq::<Access>::empty());
            let r0 = s0.registers();
            if r0.faithful() {
                assert(answered_by(r0.items(), SIGNATURE_KEY, 0, t.drop_first()));
                assert(signature@ == item_bytes(r0.items(), SIGNATURE_KEY, 0, 4));
            }
        }
        assert(self.log@ =~= old(self).log@ + seq![
            Access::Select(SIGNATURE_KEY),
            Access::Read(signature@),
        ]);
        if is_signature(&signature) {
            Ok(())
        } else {
            Err(FwCfgError::InvalidSignature)
        }
    }

    /// The registers of the session.
    pub fn transport(&self) -> (r: &T)
        ensures
            *r == self.registers(),
    {
        &self.transport
    }

    /// Write `key` to the selector register.
    fn select(&mut self, key: u16)
        ensures
            final(self).accesses() == old(self).accesses().push(Access::Select(key)),
            final(self).cached_features() == old(self).cached_features(),
            final(self).answered_since(*old(self)),
    {
        self.transport.select(key);
        self.log = Ghost(self.log@.push(Access::Select(key)));
        let ghost t = seq![Access::Select(key)];
        assert(self.accesses_since(old(self).accesses()) =~= t);
        assert(self.accesses().take(old(self).accesses().len() as int) =~= old(self).accesses());
        proof {
            assert(t[0] is Select);
            assert(t.drop_first() =~= Seq::<Access>::empty());
            let r0 = old(self).registers();
            if r0.faithful() {
                assert(answered_by(r0.items(), key, 0, t.drop_first()));
                assert(cursor_after(key, 0, t.drop_first()) == (key, 0int));
            }
        }
    }

    /// Fill `buffer` from the data register.
    fn read(&mut self, buffer: &mut [u8])
        ensures
            final(buffer)@.len() == old(buffer)@.len(),
            final(self).accesses() == old(self).accesses().push(Access::Read(final(buffer)@)),
            final(self).cached_features() == old(self).cached_features(),
            final(self).answered_since(*old(self)),
    {
        self.transport.read(buffer);
        self.log = Ghost(self.log@.push(Access::Read(buffer@)));
        let ghost t = seq![Access::Read(buffer@)];
        assert(self.accesses_since(old(self).accesses()) =~= t);
        assert(self.accesses().take(old(self).accesses().len() as int) =~= old(self).accesses());
        proof {
            assert(t[0] is Read);
            assert(t.drop_first() =~= Seq::<Access>::empty());
            let r0 = old(self).registers();
            let k = r0.selected_key();
            let o = r0.read_offset() as int + buffer@.len();
            if r0.faithful() {
                assert(answered_by(r0.items(), k, o, t.drop_first()));
                assert(cursor_after(k, o, t.drop_first()) == (k, o));
            }
        }
    }

    /// The feature bitmap, read from the device the first time and cached.
    fn feature_bitmap(&mut self) -> (r: u32)
        ensures
            final(self).cached_features() == Some(r),
            reads_features(
                old(self).accesses(),
                old(self).cached_features(),
                final(self).accesses(),
                r,
            ),
    {
        match self.feature_bitmap {
            Some(v) => v,
            None => {
                let mut buffer = [0u8; 4];
                self.select(FEATURE_BITMAP_KEY);
                self.read(&mut buffer);
                let value = u32_from_le(&buffer);
                self.feature_bitmap = Some(value);
                assert(self.log@ =~= old(self).log@ + seq![
                    Access::Select(FEATURE_BITMAP_KEY),
                    Access::Read(buffer@),
                ]);
                value
            },
        }
    }

    /// Select the directory and read its record count.
    fn read_directory_count(&mut self) -> (count: u32)
        ensures
            final(self).accesses().len() == old(self).accesses().len() + 2,
            final(self).accesses().take(old(self).accesses().len() as int) == old(self).accesses(),
            is_directory_scan(final(self).accesses_since(old(self).accesses())),
            count == scan_count(final(self).accesses_since(old(self).accesses())),
            final(self).cached_features() == old(self).cached_features(),
            final(self).answered_since(*old(self)),
    {
        let mut buffer = [0u8; 4];
        let ghost s0 = *self;
        self.select(DIRECTORY_KEY);
        let ghost s1 = *self;
        self.read(&mut buffer);
        proof {
            Self::lemma_answered_since_compose(s0, s1, *self);
        }
        let count = u32_from_be(&buffer);
        let ghost t = self.log@.skip(old(self).log@.len() as int);
        assert(t =~= seq![Access::Select(DIRECTORY_KEY), Access::Read(buffer@)]);
        assert(self.log@.take(old(self).log@.len() as int) =~= old(self).log@);
        count
    }

    /// Read the next directory record.
    fn read_record(&mut self) -> (f: FwCfgFile)
        ensures
            final(self).accesses().len() == old(self).accesses().len() + 1,
            final(self).accesses().drop_last() == old(self).accesses(),
            final(self).accesses().last() is Read,
            read_data(final(self).accesses().last()).len() == RECORD_LEN,
            f@ == decode_record(read_data(final(self).accesses().last())),
            final(self).cached_features() == old(self).cached_features(),
            final(self).answered_since(*old(self)),
    {
        let mut record = [0u8; 64];
        self.read(&mut record);
        assert(self.log@.drop_last() =~= old(self).log@);
        FwCfgFile::decode(&record)
    }

    /// All files of the directory, in order: the directory is selected, its record count
    /// read, then that many records.
    pub fn iter_files(&mut self) -> (r: Vec<FwCfgFile>)
        ensures
            final(self).extends(old(self).accesses()),
            is_directory_scan(final(self).accesses_since(old(self).accesses())),
            r@.len() == scan_count(final(self).accesses_since(old(self).accesses())),
            r@.len() + 2 == final(self).accesses_since(old(self).accesses()).len(),
            forall|i: int|
                0 <= i < r@.len() ==> (#[trigger] r@[i])@ == scan_records(
                    final(self).accesses_since(old(self).accesses()),
                )[i],
            final(self).cached_features() == old(self).cached_features(),
            final(self).answered_since(*old(self)),
            old(self).registers().faithful() ==> r@.len() == directory_of(
                old(self).registers().items(),
            ).len() && forall|i: int|
                0 <= i < r@.len() ==> (#[trigger] r@[i])@ == directory_of(
                    old(self).registers().items(),
                )[i],
    {
        let ghost start = self.log@;
        let ghost s0 = *self;
        let count = self.read_directory_count();
        let mut files: Vec<FwCfgFile> = Vec::new();
        let mut i: u32 = 0;
        while i < count
            invariant
                i <= count,
                start == old(self).accesses(),
                self.log@.len() == start.len() + 2 + i,
                self.log@.take(start.len() as int) == start,
                is_directory_scan(self.log@.skip(start.len() as int)),
                count == scan_count(self.log@.skip(start.len() as int)),
                files@.len() == i,
                forall|k: int|
                    0 <= k < i ==> (#[trigger] files@[k])@ == scan_records(
                        self.log@.skip(start.len() as int),
                    )[k],
                self.cached_features() == old(self).cached_features(),
                s0 == *old(self),
                self.answered_since(s0),
            decreases count - i,
        {
            let ghost t = self.log@.skip(start.len() as int);
            let ghost s1 = *self;
            let file = self.read_record();
            proof {
                Self::lemma_answered_since_compose(s0, s1, *self);
            }
            let ghost t2 = self.log@.skip(start.len() as int);
            assert(t2 =~= t.push(self.log@.last()));
            assert(self.log@.take(start.len() as int) =~= start);
            assert(scan_records(t2) =~= scan_records(t).push(file@));
            files.push(file);
            i = i + 1;
        }
        proof {
            let t = self.accesses_since(s0.accesses());
            let r0 = s0.registers();
            if r0.faithful() {
                lemma_scan_reads_directory(r0.items(), r0.selected_key(), r0.read_offset() as int, t);
                let dir = directory_of(r0.items());
                assert forall|k: int| 0 <= k < files@.len() implies (#[trigger] files@[k])@ == dir[k] by {
                    assert(dir.take(scan_records(t).len() as int)[k] == dir[k]);
                }
            }
        }
        files
    }

    /// Find files by name.
    ///
    /// One scan of the directory fills, for each record read, every entry that asks for
    /// the record's name; it stops once a record has filled some entry and every entry
    /// holds a file. An entry whose name no record read carries keeps what it held.
    pub fn find_files(&mut self, entries: &mut [(&str, Option<FwCfgFile>)])
        ensures
            final(self).extends(old(self).accesses()),
            is_directory_scan(final(self).accesses_since(old(self).accesses())),
            scan_records(final(self).accesses_since(old(self).accesses())).len() <= scan_count(
                final(self).accesses_since(old(self).accesses()),
            ),
            lookup(
                requested_names(old(entries)@),
                slot_views(old(entries)@),
                scan_records(final(self).accesses_since(old(self).accesses())),
            ).1 == scan_records(final(self).accesses_since(old(self).accesses())).len(),
            scan_records(final(self).accesses_since(old(self).accesses())).len() == scan_count(
                final(self).accesses_since(old(self).accesses()),
            ) || stops_at_end(
                requested_names(old(entries)@),
                slot_views(old(entries)@),
                scan_records(final(self).accesses_since(old(self).accesses())),
            ),
            slot_views(final(entries)@) == lookup(
                requested_names(old(entries)@),
                slot_views(old(entries)@),
                scan_records(final(self).accesses_since(old(self).accesses())),
            ).0,
            final(entries)@.len() == old(entries)@.len(),
            forall|j: int|
                0 <= j < old(entries)@.len() ==> (#[trigger] final(entries)@[j]).0
                    == old(entries)@[j].0,
            forall|j: int|
                0 <= j < old(entries)@.len() && (forall|k: int|
                    0 <= k < scan_records(final(self).accesses_since(old(self).accesses())).len()
                        ==> scan_records(final(self).accesses_since(old(self).accesses()))[k].name
                        != requested_names(old(entries)@)[j]) ==> #[trigger] final(entries)@[j]
                    == old(entries)@[j],
            final(self).cached_features() == old(self).cached_features(),
            final(self).answered_since(*old(self)),
            old(self).registers().faithful() ==> scan_count(
                final(self).accesses_since(old(self).accesses()),
            ) == directory_of(old(self).registers().items()).len() && scan_records(
                final(self).accesses_since(old(self).accesses()),
            ) == directory_of(old(self).registers().items()).take(
                scan_records(final(self).accesses_since(old(self).accesses())).len() as int,
            ),
            old(self).registers().faithful() ==> slot_views(final(entries)@) == lookup(
                requested_names(old(entries)@),
                slot_views(old(entries)@),
                directory_of(old(self).registers().items()),
            ).0,
            old(self).registers().faithful() ==> forall|j: int|
                0 <= j < old(entries)@.len() && (forall|k: int|
                    0 <= k < directory_of(old(self).registers().items()).len() ==> directory_of(
                        old(self).registers().items(),
                    )[k].name != requested_names(old(entries)@)[j]) ==> #[trigger] final(entries)@[j] == old(entries)@[j],
    {
        let ghost start_log = self.log@;
        let ghost s0 = *self;
        let ghost names = requested_names(entries@);
        let ghost start = entries@;
        let ghost slots0 = slot_views(start);
        let count = self.read_directory_count();
        let mut i: u32 = 0;
        while i < count
            invariant
                i <= count,
                start_log == old(self).accesses(),
                start == old(entries)@,
                names == requested_names(start),
                slots0 == slot_views(start),
                self.log@.len() == start_log.len() + 2 + i,
                self.log@.take(start_log.len() as int) == start_log,
                is_directory_scan(self.log@.skip(start_log.len() as int)),
                count == scan_count(self.log@.skip(start_log.len() as int)),
                self.cached_features() == old(self).cached_features(),
                s0 == *old(self),
                self.answered_since(s0),
                entries@.len() == start.len(),
                forall|j: int| 0 <= j < start.len() ==> (#[trigger] entries@[j]).0 == start[j].0,
                slot_views(entries@) == lookup(
                    names,
                    slots0,
                    scan_records(self.log@.skip(start_log.len() as int)),
                ).0,
                goes_on(names, slots0, scan_records(self.log@.skip(start_log.len() as int))),
                forall|j: int|
                    0 <= j < start.len() && (forall|k: int|
                        0 <= k < i ==> scan_records(self.log@.skip(start_log.len() as int))[k].name
                            != names[j]) ==> #[trigger] entries@[j] == start[j],
            decreases count - i,
        {
            let ghost t = self.log@.skip(start_log.len() as int);
            let ghost recs = scan_records(t);
            let ghost s1 = *self;
            let file = self.read_record();
            proof {
                Self::lemma_answered_since_compose(s0, s1, *self);
            }
            let ghost t2 = self.log@.skip(start_log.len() as int);
            let ghost recs2 = scan_records(t2);
            proof {
                assert(t2 =~= t.push(self.log@.last()));
                assert(self.log@.take(start_log.len() as int) =~= start_log);
                assert(recs2 =~= recs.push(file@));
                lemma_lookup_push(names, slots0, recs, file@);
            }
            let ghost prev = entries@;
            let mut changed = false;
            let mut j: usize = 0;
            while j < entries.len()
                invariant
                    j <= entries@.len(),
                    entries@.len() == prev.len(),
                    prev.len() == start.len(),
                    names == requested_names(start),
                    forall|jj: int| 0 <= jj < prev.len() ==> (#[trigger] prev[jj]).0 == start[jj].0,
                    forall|jj: int|
                        0 <= jj < j ==> #[trigger] entries@[jj] == if names[jj] == file@.name {
                            (prev[jj].0, Some(file))
                        } else {
                            prev[jj]
                        },
                    forall|jj: int| j <= jj < entries@.len() ==> #[trigger] entries@[jj] == prev[jj],
                    changed == exists|jj: int| 0 <= jj < j && names[jj] == file@.name,
                decreases entries@.len() - j,
            {
                let name = entries[j].0;
                assert(names[j as int] == name.spec_bytes());
                if file.has_name(name) {
                    entries[j] = (name, Some(file));
                    changed = true;
                }
                j = j + 1;
            }
            proof {
                assert(slot_views(entries@) =~= fill_slots(names, slot_views(prev), file@));
                assert(changed == names_match(names, file@));
                assert(recs2.last() == file@);
                assert forall|jj: int|
                    0 <= jj < start.len() && (forall|k: int|
                        0 <= k < i + 1 ==> recs2[k].name != names[jj]) implies #[trigger] entries@[jj]
                    == start[jj] by {
                    assert(recs2[i as int].name != names[jj]);
                    assert forall|k: int| 0 <= k < i implies recs[k].name != names[jj] by {
                        assert(recs2[k] == recs[k]);
                    }
                }
            }
            i = i + 1;
            proof {
                let r0 = s0.registers();
                if r0.faithful() {
                    lemma_scan_reads_directory(r0.items(), r0.selected_key(), r0.read_offset() as int, t2);
                    let dir = directory_of(r0.items());
                    assert forall|k: int| 0 <= k < recs2.len() implies recs2[k] == dir[k] by {
                        assert(dir.take(recs2.len() as int)[k] == dir[k]);
                    }
                    if changed && all_filled(slot_views(entries@)) {
                        assert(stops_at_end(names, slots0, recs2));
                        lemma_lookup_prefix(names, slots0, recs2, dir);
                    }
                }
            }
            if changed && all_slots_filled(entries) {
                assert(stops_at_end(names, slots0, recs2));
                return;
            }
        }
        proof {
            let r0 = s0.registers();
            if r0.faithful() {
                let t = self.accesses_since(s0.accesses());
                lemma_scan_reads_directory(r0.items(), r0.selected_key(), r0.read_offset() as int, t);
                let dir = directory_of(r0.items());
                let recs = scan_records(t);
                assert forall|k: int| 0 <= k < recs.len() implies recs[k] == dir[k] by {
                    assert(dir.take(recs.len() as int)[k] == dir[k]);
                }
                lemma_lookup_prefix(names, slots0, recs, dir);
            }
        }
    }

    /// Find the first file named `name`; `None` when no record of the directory carries it,
    /// after reading every record.
    pub fn find_file(&mut self, name: &str) -> (r: Option<FwCfgFile>)
        ensures
            final(self).extends(old(self).accesses()),
            is_directory_scan(final(self).accesses_since(old(self).accesses())),
            r matches Some(f) ==> ({
                let t = final(self).accesses_since(old(self).accesses());
                let recs = scan_records(t);
                &&& 1 <= recs.len() <= scan_count(t)
                &&& f@ == recs.last()
                &&& f@.name == name.spec_bytes()
                &&& forall|k: int| 0 <= k < recs.len() - 1 ==> recs[k].name != name.spec_bytes()
            }),
            r is None ==> ({
                let t = final(self).accesses_since(old(self).accesses());
                &&& scan_records(t).len() == scan_count(t)
                &&& forall|k: int|
                    0 <= k < scan_records(t).len() ==> scan_records(t)[k].name != name.spec_bytes()
            }),
            final(self).cached_features() == old(self).cached_features(),
            final(self).answered_since(*old(self)),
            old(self).registers().faithful() ==> (r matches Some(f) ==> exists|i: int|
                first_named(directory_of(old(self).registers().items()), name.spec_bytes(), i)
                    && f@ == directory_of(old(self).registers().items())[i]),
            old(self).registers().faithful() ==> (r is None ==> forall|i: int|
                0 <= i < directory_of(old(self).registers().items()).len() ==> directory_of(
                    old(self).registers().items(),
                )[i].name != name.spec_bytes()),
    {
        let mut entries = [(name, None)];
        let ghost start = entries@;
        self.find_files(&mut entries);
        proof {
            let recs = scan_records(self.accesses_since(old(self).accesses()));
            assert(requested_names(start) =~= seq![name.spec_bytes()]);
            assert(slot_views(start) =~= seq![None::<FileView>]);
            lemma_lookup_one(name.spec_bytes(), recs);
            assert(slot_views(entries@)[0] == slot_view(entries@[0].1));
            if recs.len() > 0 {
                assert(recs.last() == recs[recs.len() - 1]);
            }
            let r0 = old(self).registers();
            if r0.faithful() {
                lemma_find_in_directory(
                    r0.items(),
                    r0.selected_key(),
                    r0.read_offset() as int,
                    name.spec_bytes(),
                    self.accesses_since(old(self).accesses()),
                    slot_view(entries@[0].1),
                );
            }
        }
        entries[0].1
    }

    /// Read file `file` into the front of `buffer`: as many bytes as the smaller of the file
    /// and the buffer holds. The rest of the buffer stays as it was.
    pub fn read_file_to_buffer(&mut self, file: &FwCfgFile, buffer: &mut [u8])
        ensures
            final(buffer)@.len() == old(buffer)@.len(),
            final(self).accesses() == old(self).accesses() + seq![
                Access::Select(file@.key),
                Access::Read(
                    final(buffer)@.take(min_len(file@.size as nat, old(buffer)@.len()) as int),
                ),
            ],
            final(buffer)@.skip(min_len(file@.size as nat, old(buffer)@.len()) as int) == old(buffer)@.skip(min_len(file@.size as nat, old(buffer)@.len()) as int),
            final(self).cached_features() == old(self).cached_features(),
            final(self).answered_since(*old(self)),
            old(self).registers().faithful() ==> final(buffer)@.take(
                min_len(file@.size as nat, old(buffer)@.len()) as int,
            ) == item_bytes(
                old(self).registers().items(),
                file@.key,
                0,
                min_len(file@.size as nat, old(buffer)@.len()),
            ),
    {
        let size = file.size();
        let len = if size < buffer.len() {
            size
        } else {
            buffer.len()
        };
        let ghost s0 = *self;
        self.select(file.key());
        let ghost s1 = *self;
        let (head, tail) = buffer.split_at_mut(len);
        self.read(head);
        let ghost h = head@;
        let ghost rest = tail@;
        proof {
            assert(self.log@ =~= old(self).log@ + seq![Access::Select(file@.key), Access::Read(h)]);
            Self::lemma_select_then_read(s0, s1, *self, file@.key, h);
        }
        assert(final(buffer)@ == h + rest);
        assert((h + rest).take(len as int) =~= h);
        assert((h + rest).skip(len as int) =~= rest);
        assert(old(buffer)@.skip(len as int) =~= rest);
    }

    /// Read the whole of file `file`.
    pub fn read_file(&mut self, file: &FwCfgFile) -> (r: Vec<u8>)
        ensures
            r@.len() == file@.size,
            final(self).accesses() == old(self).accesses() + seq![
                Access::Select(file@.key),
                Access::Read(r@),
            ],
            final(self).cached_features() == old(self).cached_features(),
            final(self).answered_since(*old(self)),
            old(self).registers().faithful() ==> r@ == item_bytes(
                old(self).registers().items(),
                file@.key,
                0,
                file@.size as nat,
            ),
    {
        let mut buffer = vec![0u8; file.size()];
        let ghost s0 = *self;
        self.select(file.key());
        let ghost s1 = *self;
        self.read(buffer.as_mut_slice());
        assert(self.log@ =~= old(self).log@ + seq![
            Access::Select(file@.key),
            Access::Read(buffer@),
        ]);
        proof {
            Self::lemma_select_then_read(s0, s1, *self, file@.key, buffer@);
        }
        buffer
    }

    /// Start writing `data` to file `file` from its start, by DMA.
    ///
    /// Fails with `DmaNotAvailable`, before any DMA register is touched, when the feature
    /// bitmap lacks the DMA bit. Otherwise the transfer is handed to the device, with a
    /// control word that selects the file and writes; its result comes from `poll_write`.
    pub fn begin_write_to_file(&mut self, file: &FwCfgFile, data: &[u8]) -> (r: Result<
        (),
        FwCfgWriteError,
    >)
        requires
            data@.len() <= u32::MAX,
        ensures
            final(self).cached_features() is Some,
            old(self).cached_features() is Some ==> final(self).cached_features() == old(self).cached_features(),
            final(self).known_features() & HAS_DMA == 0 ==> r == Err::<(), _>(
                FwCfgWriteError::DmaNotAvailable,
            ) && reads_features(
                old(self).accesses(),
                old(self).cached_features(),
                final(self).accesses(),
                final(self).known_features(),
            ),
            final(self).known_features() & HAS_DMA != 0 ==> r is Ok && final(self).accesses().len()
                > 0 && final(self).accesses().last() == Access::StartDma(
                write_control(file@.key),
                data@,
            ) && reads_features(
                old(self).accesses(),
                old(self).cached_features(),
                final(self).accesses().drop_last(),
                final(self).known_features(),
            ),
    {
        let features = self.feature_bitmap();
        if features & HAS_DMA == 0 {
            return Err(FwCfgWriteError::DmaNotAvailable);
        }
        let control = write_control_word(file.key());
        self.transport.start_dma(control, data);
        let ghost before = self.log@;
        self.log = Ghost(self.log@.push(Access::StartDma(control, data@)));
        assert(self.log@.drop_last() =~= before);
        Ok(())
    }

    /// Read back the control word of the transfer started last: `None` while the transfer
    /// runs, then its result.
    pub fn poll_write(&mut self) -> (r: Option<Result<(), FwCfgWriteError>>)
        ensures
            final(self).accesses() == old(self).accesses().push(
                Access::PollDma(polled_control(final(self).accesses().last())),
            ),
            r == dma_outcome_of(polled_control(final(self).accesses().last())),
            final(self).cached_features() == old(self).cached_features(),
    {
        let control = self.transport.dma_control();
        self.log = Ghost(self.log@.push(Access::PollDma(control)));
        dma_outcome(control)
    }
}

/// A device whose signature did not read `QEMU`, with the record of the accesses made.
pub struct Rejected<T: Transport> {
    session: FwCfg<T>,
}

impl<T: Transport> Rejected<T> {
    /// The accesses made before the device was rejected, with the device's answers.
    pub closed spec fn accesses(&self) -> Seq<Access> {
        self.session.accesses()
    }

    /// The registers of the rejected device.
    pub closed spec fn registers(&self) -> T {
        self.session.registers()
    }

    /// Why the device was rejected.
    pub fn error(&self) -> (r: FwCfgError)
        ensures
            r == FwCfgError::InvalidSignature,
    {
        FwCfgError::InvalidSignature
    }

    /// The registers of the rejected device.
    pub fn transport(&self) -> (r: &T)
        ensures
            *r == self.registers(),
    {
        self.session.transport()
    }

    /// Give the registers back.
    pub fn into_transport(self) -> (r: T)
        ensures
            r == self.registers(),
    {
        self.session.transport
    }
}

/// Whether every entry holds a file.
fn all_slots_filled(entries: &[(&str, Option<FwCfgFile>)]) -> (r: bool)
    ensures
        r == all_filled(slot_views(entries@)),
{
    let mut j: usize = 0;
    while j < entries.len()
        invariant
            j <= entries@.len(),
            forall|jj: int| 0 <= jj < j ==> (#[trigger] entries@[jj]).1 is Some,
        decreases entries@.len() - j,
    {
        if entries[j].1.is_none() {
            assert(slot_views(entries@)[j as int] is None);
            return false;
        }
        j = j + 1;
    }
    assert forall|jj: int| 0 <= jj < entries@.len() implies (#[trigger] slot_views(
        entries@,
    )[jj]) is Some by {
        assert(entries@[jj].1 is Some);
    }
    true
}

} // verus!
