//! Directory scans and the name lookup done over the records they read.

use vstd::prelude::*;
use vstd::string::StringSliceAdditionalSpecFns;

use crate::bytes::{
    be_u16_bytes, be_u32, be_u32_bytes, lemma_be_u16_bytes_of_value, lemma_be_u32_bytes_of_value,
};
use crate::file::{
    before_nul, decode_record, encode_record, lemma_nul_len_at, lemma_nul_len_bounds, name_field,
    nul_len, padded_name, FileView, FwCfgFile, RECORD_LEN,
};
use crate::transport::{read_data, Access, DIRECTORY_KEY};

verus! {

/// The accesses of a directory scan: selecting the directory, reading its four-byte count,
/// then reading whole records.
pub open spec fn is_directory_scan(t: Seq<Access>) -> bool {
    &&& t.len() >= 2
    &&& t[0] == Access::Select(DIRECTORY_KEY)
    &&& t[1] is Read
    &&& read_data(t[1]).len() == 4
    &&& forall|i: int| 2 <= i < t.len() ==> #[trigger] t[i] is Read && read_data(t[i]).len() == RECORD_LEN
}

/// The record count that a directory scan read.
pub open spec fn scan_count(t: Seq<Access>) -> nat {
    be_u32(read_data(t[1])) as nat
}

/// The descriptors of the records that a directory scan read, in order.
pub open spec fn scan_records(t: Seq<Access>) -> Seq<FileView> {
    Seq::new((t.len() - 2) as nat, |i: int| decode_record(read_data(t[i + 2])))
}

/// The descriptor a result slot holds, if any.
pub open spec fn slot_view(slot: Option<FwCfgFile>) -> Option<FileView> {
    match slot {
        Some(f) => Some(f@),
        None => None,
    }
}

/// The name bytes asked for by each lookup entry.
pub open spec fn requested_names(entries: Seq<(&str, Option<FwCfgFile>)>) -> Seq<Seq<u8>> {
    entries.map_values(|e: (&str, Option<FwCfgFile>)| e.0.spec_bytes())
}

/// The descriptors held by the result slots of lookup entries.
pub open spec fn slot_views(entries: Seq<(&str, Option<FwCfgFile>)>) -> Seq<Option<FileView>> {
    entries.map_values(|e: (&str, Option<FwCfgFile>)| slot_view(e.1))
}

/// The slots after meeting descriptor `f`: each slot whose name is `f`'s now holds `f`.
pub open spec fn fill_slots(names: Seq<Seq<u8>>, slots: Seq<Option<FileView>>, f: FileView) -> Seq<
    Option<FileView>,
> {
    Seq::new(slots.len(), |j: int| if names[j] == f.name { Some(f) } else { slots[j] })
}

/// Some entry asks for the name of `f`.
pub open spec fn names_match(names: Seq<Seq<u8>>, f: FileView) -> bool {
    exists|j: int| 0 <= j < names.len() && names[j] == f.name
}

/// Every slot holds a descriptor.
pub open spec fn all_filled(slots: Seq<Option<FileView>>) -> bool {
    forall|j: int| 0 <= j < slots.len() ==> slots[j] is Some
}

/// A lookup of `names` over the records `recs`, starting from `slots`: the slots at the end
/// and the number of records it reads.
///
/// Records are read in order; each fills the slots that ask for its name. The lookup stops
/// after a record that filled some slot when then every slot holds a descriptor.
pub open spec fn lookup(names: Seq<Seq<u8>>, slots: Seq<Option<FileView>>, recs: Seq<FileView>) -> (
    Seq<Option<FileView>>,
    nat,
)
    decreases recs.len(),
{
    if recs.len() == 0 {
        (slots, 0)
    } else {
        let next = fill_slots(names, slots, recs[0]);
        if names_match(names, recs[0]) && all_filled(next) {
            (next, 1)
        } else {
            let rest = lookup(names, next, recs.drop_first());
            (rest.0, rest.1 + 1)
        }
    }
}

/// The lookup stops at the last of `recs`, and not before.
pub open spec fn stops_at_end(names: Seq<Seq<u8>>, slots: Seq<Option<FileView>>, recs: Seq<FileView>) -> bool {
    &&& recs.len() > 0
    &&& lookup(names, slots, recs).1 == recs.len()
    &&& names_match(names, recs.last())
    &&& all_filled(lookup(names, slots, recs).0)
}

/// After reading all of `recs` the lookup goes on to the next record.
pub open spec fn goes_on(names: Seq<Seq<u8>>, slots: Seq<Option<FileView>>, recs: Seq<FileView>) -> bool {
    lookup(names, slots, recs).1 == recs.len() && !stops_at_end(names, slots, recs)
}

/// A lookup that went on through `recs` meets one more record by filling the slots
/// that ask for its name.
pub proof fn lemma_lookup_push(
    names: Seq<Seq<u8>>,
    slots: Seq<Option<FileView>>,
    recs: Seq<FileView>,
    f: FileView,
)
    requires
        goes_on(names, slots, recs),
    ensures
        lookup(names, slots, recs.push(f)) == (
            fill_slots(names, lookup(names, slots, recs).0, f),
            recs.len() + 1,
        ),
    decreases recs.len(),
{
    let all = recs.push(f);
    if recs.len() == 0 {
        assert(all.drop_first() =~= Seq::<FileView>::empty());
        let next = fill_slots(names, slots, f);
        assert(lookup(names, next, all.drop_first()) == (next, 0nat));
    } else {
        let next = fill_slots(names, slots, recs[0]);
        assert(all[0] == recs[0]);
        assert(all.drop_first() =~= recs.drop_first().push(f));
        if names_match(names, recs[0]) && all_filled(next) {
            assert(recs.len() == 1);
            assert(recs.last() == recs[0]);
            assert(stops_at_end(names, slots, recs));
        } else {
            let rest = recs.drop_first();
            if rest.len() > 0 {
                assert(rest.last() == recs.last());
            }
            lemma_lookup_push(names, next, rest, f);
        }
    }
}

/// Looking up a single name: the lookup stops at the first record that carries the name,
/// and the slot then holds that record; where no record carries it, the slot stays empty
/// and every record is read.
pub proof fn lemma_lookup_one(name: Seq<u8>, recs: Seq<FileView>)
    ensures
        (forall|k: int| 0 <= k < recs.len() ==> recs[k].name != name) ==> lookup(
            seq![name],
            seq![None],
            recs,
        ) == (seq![None::<FileView>], recs.len()),
        (exists|k: int| 0 <= k < recs.len() && recs[k].name == name) ==> ({
            let (s, n) = lookup(seq![name], seq![None], recs);
            &&& 1 <= n <= recs.len()
            &&& recs[n - 1].name == name
            &&& s == seq![Some(recs[n - 1])]
            &&& forall|k: int| 0 <= k < n - 1 ==> recs[k].name != name
        }),
    decreases recs.len(),
{
    let names = seq![name];
    let slots = seq![None::<FileView>];
    if recs.len() > 0 {
        let next = fill_slots(names, slots, recs[0]);
        let rest = recs.drop_first();
        if recs[0].name == name {
            assert(names[0] == recs[0].name);
            assert(names_match(names, recs[0]));
            assert(next =~= seq![Some(recs[0])]);
        } else {
            assert(next =~= slots);
            assert(!names_match(names, recs[0]));
            lemma_lookup_one(name, rest);
            if forall|k: int| 0 <= k < recs.len() ==> recs[k].name != name {
                assert forall|k: int| 0 <= k < rest.len() implies rest[k].name != name by {
                    assert(rest[k] == recs[k + 1]);
                }
            }
            if exists|k: int| 0 <= k < recs.len() && recs[k].name == name {
                let k = choose|k: int| 0 <= k < recs.len() && recs[k].name == name;
                assert(rest[k - 1] == recs[k]);
                let n = lookup(names, slots, recs).1;
                assert(recs[n - 1] == rest[n - 2]);
                assert forall|k: int| 0 <= k < n - 1 implies recs[k].name != name by {
                    if k > 0 {
                        assert(recs[k] == rest[k - 1]);
                    }
                }
            }
        }
    }
}

/// A lookup that read the first records of `dir` and ended there as a lookup does (after
/// every record, or where it stops) gives what the lookup over all of `dir` gives.
pub proof fn lemma_lookup_prefix(
    names: Seq<Seq<u8>>,
    slots: Seq<Option<FileView>>,
    recs: Seq<FileView>,
    dir: Seq<FileView>,
)
    requires
        recs.len() <= dir.len(),
        recs == dir.take(recs.len() as int),
        lookup(names, slots, recs).1 == recs.len(),
        recs.len() == dir.len() || stops_at_end(names, slots, recs),
    ensures
        lookup(names, slots, dir) == lookup(names, slots, recs),
    decreases recs.len(),
{
    if recs.len() == 0 {
        assert(dir =~= recs);
    } else {
        assert(recs[0] == dir[0]);
        let next = fill_slots(names, slots, recs[0]);
        if !(names_match(names, recs[0]) && all_filled(next)) {
            let rr = recs.drop_first();
            let rd = dir.drop_first();
            assert(rr =~= rd.take(rr.len() as int));
            if rr.len() > 0 {
                assert(rr.last() == recs.last());
            }
            lemma_lookup_prefix(names, next, rr, rd);
        }
    }
}

/// A lookup leaves alone each slot whose name no record carries.
pub proof fn lemma_lookup_absent(
    names: Seq<Seq<u8>>,
    slots: Seq<Option<FileView>>,
    recs: Seq<FileView>,
    j: int,
)
    requires
        names.len() == slots.len(),
        0 <= j < names.len(),
        forall|k: int| 0 <= k < recs.len() ==> recs[k].name != names[j],
    ensures
        lookup(names, slots, recs).0.len() == slots.len(),
        lookup(names, slots, recs).0[j] == slots[j],
    decreases recs.len(),
{
    if recs.len() > 0 {
        let next = fill_slots(names, slots, recs[0]);
        assert(recs[0].name != names[j]);
        if !(names_match(names, recs[0]) && all_filled(next)) {
            let rest = recs.drop_first();
            assert forall|k: int| 0 <= k < rest.len() implies rest[k].name != names[j] by {
                assert(rest[k] == recs[k + 1]);
            }
            lemma_lookup_absent(names, next, rest, j);
        }
    }
}

/// An empty slot whose name exactly one record carries ends holding that record.
pub proof fn lemma_lookup_fills_present_name(
    names: Seq<Seq<u8>>,
    slots: Seq<Option<FileView>>,
    recs: Seq<FileView>,
    j: int,
    k: int,
)
    requires
        names.len() == slots.len(),
        0 <= j < names.len(),
        slots[j] is None,
        0 <= k < recs.len(),
        recs[k].name == names[j],
        forall|i: int| 0 <= i < recs.len() && i != k ==> recs[i].name != names[j],
    ensures
        lookup(names, slots, recs).0[j] == Some(recs[k]),
    decreases recs.len(),
{
    let next = fill_slots(names, slots, recs[0]);
    let rest = recs.drop_first();
    if k == 0 {
        if !(names_match(names, recs[0]) && all_filled(next)) {
            assert forall|i: int| 0 <= i < rest.len() implies rest[i].name != names[j] by {
                assert(rest[i] == recs[i + 1]);
            }
            lemma_lookup_absent(names, next, rest, j);
        }
    } else {
        assert(recs[0].name != names[j]);
        assert(next[j] is None);
        assert(!all_filled(next));
        assert forall|i: int| 0 <= i < rest.len() && i != k - 1 implies rest[i].name != names[j] by {
            assert(rest[i] == recs[i + 1]);
        }
        assert(rest[k - 1] == recs[k]);
        lemma_lookup_fills_present_name(names, next, rest, j, k - 1);
    }
}

/// Entries that ask for the same name and start out with the same slot end with the same
/// slot: duplicate names all receive the same descriptor.
pub proof fn lemma_lookup_duplicate_names(
    names: Seq<Seq<u8>>,
    slots: Seq<Option<FileView>>,
    recs: Seq<FileView>,
    j1: int,
    j2: int,
)
    requires
        names.len() == slots.len(),
        0 <= j1 < names.len(),
        0 <= j2 < names.len(),
        names[j1] == names[j2],
        slots[j1] == slots[j2],
    ensures
        lookup(names, slots, recs).0[j1] == lookup(names, slots, recs).0[j2],
    decreases recs.len(),
{
    if recs.len() > 0 {
        let next = fill_slots(names, slots, recs[0]);
        if !(names_match(names, recs[0]) && all_filled(next)) {
            lemma_lookup_duplicate_names(names, next, recs.drop_first(), j1, j2);
        }
    }
}

/// Decoding a record and encoding the descriptor again gives back its size and key bytes
/// and its name bytes up to the first NUL, followed by NUL bytes; the record encoded so
/// decodes to the same descriptor.
pub proof fn lemma_record_round_trip(record: Seq<u8>)
    requires
        record.len() == RECORD_LEN,
    ensures
        encode_record(decode_record(record)).len() == RECORD_LEN,
        encode_record(decode_record(record)).subrange(0, 4) == record.subrange(0, 4),
        encode_record(decode_record(record)).subrange(4, 6) == record.subrange(4, 6),
        decode_record(record).name == before_nul(name_field(record)),
        name_field(encode_record(decode_record(record))) == padded_name(
            before_nul(name_field(record)),
        ),
        decode_record(encode_record(decode_record(record))) == decode_record(record),
{
    let f = decode_record(record);
    let e = encode_record(f);
    let field = name_field(record);
    lemma_nul_len_bounds(field);
    lemma_be_u32_bytes_of_value(record.subrange(0, 4));
    lemma_be_u16_bytes_of_value(record.subrange(4, 6));
    assert(e.subrange(0, 4) =~= record.subrange(0, 4));
    assert(e.subrange(4, 6) =~= record.subrange(4, 6));
    assert(name_field(e) =~= padded_name(f.name));
    let n = nul_len(field) as int;
    let padded = padded_name(f.name);
    assert forall|i: int| 0 <= i < n implies padded[i] != 0 by {
        assert(padded[i] == field[i]);
    }
    lemma_nul_len_at(padded, n);
    assert(before_nul(padded) =~= f.name);
    crate::bytes::lemma_be_u32_round_trip(f.size);
    crate::bytes::lemma_be_u16_round_trip(f.key);
    assert(e.subrange(0, 4) =~= be_u32_bytes(f.size));
    assert(e.subrange(4, 6) =~= be_u16_bytes(f.key));
}

} // verus!
