//! Directory records: the fixed 64-byte entries of the device's file directory.

use vstd::prelude::*;
use vstd::string::StringSliceAdditionalSpecFns;
use vstd::utf8::valid_utf8;

use crate::bytes::{
    be_u16, be_u16_bytes, be_u32, be_u32_bytes, u16_from_be, u16_to_be, u32_from_be, u32_to_be,
};
use crate::utf8::str_from_utf8;

verus! {

/// Length in bytes of one directory record.
pub const RECORD_LEN: usize = 64;

/// Length in bytes of the NUL-padded name field of a record.
pub const NAME_FIELD_LEN: usize = 56;

/// Offset of the name field within a record.
pub const NAME_OFFSET: usize = 8;

/// What a file descriptor stands for: its size, its selector key and its name bytes.
pub struct FileView {
    pub size: u32,
    pub key: u16,
    pub name: Seq<u8>,
}

/// Number of bytes of `s` before its first NUL byte (all of `s` when there is none).
pub open spec fn nul_len(s: Seq<u8>) -> nat
    decreases s.len(),
{
    if s.len() == 0 {
        0
    } else if s[0] == 0 {
        0
    } else {
        1 + nul_len(s.drop_first())
    }
}

/// The bytes of `s` before its first NUL byte.
pub open spec fn before_nul(s: Seq<u8>) -> Seq<u8> {
    s.take(nul_len(s) as int)
}

/// The name field of a 64-byte record.
pub open spec fn name_field(record: Seq<u8>) -> Seq<u8> {
    record.subrange(NAME_OFFSET as int, RECORD_LEN as int)
}

/// The descriptor that a 64-byte directory record holds.
pub open spec fn decode_record(record: Seq<u8>) -> FileView {
    FileView {
        size: be_u32(record.subrange(0, 4)),
        key: be_u16(record.subrange(4, 6)),
        name: before_nul(name_field(record)),
    }
}

/// A name field that holds `name` and NUL bytes after it.
pub open spec fn padded_name(name: Seq<u8>) -> Seq<u8> {
    name + Seq::new((NAME_FIELD_LEN - name.len()) as nat, |i: int| 0u8)
}

/// The 64-byte record of a descriptor, with the reserved field zero.
pub open spec fn encode_record(f: FileView) -> Seq<u8> {
    be_u32_bytes(f.size) + be_u16_bytes(f.key) + seq![0u8, 0u8] + padded_name(f.name)
}

/// `n` is the position of the first NUL byte of `s`, or its length when there is none.
pub proof fn lemma_nul_len_at(s: Seq<u8>, n: int)
    requires
        0 <= n <= s.len(),
        forall|i: int| 0 <= i < n ==> s[i] != 0,
        n == s.len() || s[n] == 0,
    ensures
        nul_len(s) == n,
    decreases n,
{
    if n > 0 {
        lemma_nul_len_at(s.drop_first(), n - 1);
    }
}

/// The bytes before the first NUL hold no NUL, and a NUL or the end follows them.
pub proof fn lemma_nul_len_bounds(s: Seq<u8>)
    ensures
        nul_len(s) <= s.len(),
        forall|i: int| 0 <= i < nul_len(s) ==> s[i] != 0,
        nul_len(s) == s.len() || s[nul_len(s) as int] == 0,
    decreases s.len(),
{
    if s.len() > 0 && s[0] != 0 {
        lemma_nul_len_bounds(s.drop_first());
        assert forall|i: int| 0 <= i < nul_len(s) implies s[i] != 0 by {
            if i > 0 {
                assert(s[i] == s.drop_first()[i - 1]);
            }
        }
    }
}

/// A descriptor of a file, decoded from one record of the device's directory.
#[derive(Clone, Copy, Debug, PartialEq, Eq)]
pub struct FwCfgFile {
    size: u32,
    key: u16,
    name: [u8; 56],
}

impl View for FwCfgFile {
    type V = FileView;

    closed spec fn view(&self) -> FileView {
        FileView { size: self.size, key: self.key, name: before_nul(self.name@) }
    }
}

impl FwCfgFile {
    /// Bytes after the name in the name field are all NUL.
    #[verifier::type_invariant]
    closed spec fn padding_is_nul(&self) -> bool {
        forall|i: int| nul_len(self.name@) <= i < NAME_FIELD_LEN ==> self.name@[i] == 0
    }

    /// Decode one 64-byte directory record.
    ///
    /// The name is what precedes the first NUL of the name field; the reserved field is
    /// ignored.
    pub fn decode(record: &[u8]) -> (f: FwCfgFile)
        requires
            record@.len() == RECORD_LEN,
        ensures
            f@ == decode_record(record@),
    {
        let size = u32_from_be(record);
        let tail = record.split_at(4).1;
        let key = u16_from_be(tail);
        let ghost field = name_field(record@);
        let mut name = [0u8; 56];
        let mut n: usize = 0;
        while n < NAME_FIELD_LEN && record[NAME_OFFSET + n] != 0
            invariant
                n <= NAME_FIELD_LEN,
                record@.len() == RECORD_LEN,
                field == name_field(record@),
                forall|i: int| 0 <= i < n ==> field[i] != 0,
                name@.len() == NAME_FIELD_LEN,
                forall|i: int| 0 <= i < n ==> name@[i] == field[i],
                forall|i: int| n <= i < NAME_FIELD_LEN ==> name@[i] == 0,
            decreases NAME_FIELD_LEN - n,
        {
            name[n] = record[NAME_OFFSET + n];
            n = n + 1;
        }
        proof {
            lemma_nul_len_at(field, n as int);
            assert forall|i: int| 0 <= i < n implies name@[i] != 0 by {
                assert(name@[i] == field[i]);
            }
            lemma_nul_len_at(name@, n as int);
            assert(before_nul(name@) =~= before_nul(field));
            assert(record@.subrange(4, 6) =~= tail@.subrange(0, 2));
        }
        FwCfgFile { size, key, name }
    }

    /// Encode this descriptor as a 64-byte directory record, with a zero reserved field.
    pub fn encode(&self) -> (r: [u8; 64])
        ensures
            r@ == encode_record(self@),
    {
        proof {
            use_type_invariant(self);
            lemma_nul_len_bounds(self.name@);
        }
        let mut r = [0u8; 64];
        let size = u32_to_be(self.size);
        let key = u16_to_be(self.key);
        r[0] = size[0];
        r[1] = size[1];
        r[2] = size[2];
        r[3] = size[3];
        r[4] = key[0];
        r[5] = key[1];
        let mut i: usize = 0;
        while i < NAME_FIELD_LEN
            invariant
                i <= NAME_FIELD_LEN,
                r@.len() == RECORD_LEN,
                r@.subrange(0, 4) == be_u32_bytes(self.size),
                r@.subrange(4, 6) == be_u16_bytes(self.key),
                r@[6] == 0 && r@[7] == 0,
                forall|j: int| 0 <= j < i ==> #[trigger] r@[NAME_OFFSET + j] == self.name@[j],
            decreases NAME_FIELD_LEN - i,
        {
            r[NAME_OFFSET + i] = self.name[i];
            i = i + 1;
        }
        assert(self.name@ =~= padded_name(before_nul(self.name@)));
        assert(r@.subrange(0, 8) =~= be_u32_bytes(self.size) + be_u16_bytes(self.key) + seq![
            0u8,
            0u8,
        ]) by {
            assert(r@.subrange(0, 4)[0] == r@[0] && r@.subrange(0, 4)[1] == r@[1]);
            assert(r@.subrange(0, 4)[2] == r@[2] && r@.subrange(0, 4)[3] == r@[3]);
            assert(r@.subrange(4, 6)[0] == r@[4] && r@.subrange(4, 6)[1] == r@[5]);
        }
        assert(r@.subrange(8, 64) =~= self.name@) by {
            assert forall|j: int| 0 <= j < 56 implies r@.subrange(8, 64)[j] == self.name@[j] by {
                assert(r@[NAME_OFFSET + j] == self.name@[j]);
            }
        }
        assert(r@ =~= r@.subrange(0, 8) + r@.subrange(8, 64));
        r
    }

    /// The size of this file in bytes.
    pub fn size(&self) -> (r: usize)
        ensures
            r == self@.size,
    {
        self.size as usize
    }

    /// The selector key of this file.
    pub fn key(&self) -> (r: u16)
        ensures
            r == self@.key,
    {
        self.key
    }

    /// Number of bytes in the name of this file.
    fn name_len(&self) -> (n: usize)
        ensures
            n == self@.name.len(),
            n <= NAME_FIELD_LEN,
    {
        let mut n: usize = 0;
        while n < NAME_FIELD_LEN && self.name[n] != 0
            invariant
                n <= NAME_FIELD_LEN,
                forall|i: int| 0 <= i < n ==> self.name@[i] != 0,
            decreases NAME_FIELD_LEN - n,
        {
            n = n + 1;
        }
        proof {
            lemma_nul_len_at(self.name@, n as int);
        }
        n
    }

    /// The bytes of the name of this file.
    pub fn name_bytes(&self) -> (r: &[u8])
        ensures
            r@ == self@.name,
    {
        let n = self.name_len();
        let r = self.name.as_slice().split_at(n).0;
        proof {
            lemma_nul_len_bounds(self.name@);
        }
        assert(r@ =~= before_nul(self.name@));
        r
    }

    /// The name of this file, or `None` when its bytes are not valid UTF-8.
    pub fn name(&self) -> (r: Option<&str>)
        ensures
            r is Some <==> valid_utf8(self@.name),
            r matches Some(s) ==> s.spec_bytes() == self@.name,
    {
        str_from_utf8(self.name_bytes())
    }

    /// Whether the name of this file is exactly `name`.
    pub fn has_name(&self, name: &str) -> (r: bool)
        ensures
            r == (self@.name == name.spec_bytes()),
    {
        let mine = self.name_bytes();
        let other = name.as_bytes();
        if mine.len() != other.len() {
            return false;
        }
        let mut i: usize = 0;
        while i < mine.len()
            invariant
                i <= mine@.len(),
                mine@.len() == other@.len(),
                mine@ == self@.name,
                other@ == name.spec_bytes(),
                forall|j: int| 0 <= j < i ==> mine@[j] == other@[j],
            decreases mine@.len() - i,
        {
            if mine[i] != other[i] {
                assert(mine@[i as int] != other@[i as int]);
                return false;
            }
            i = i + 1;
        }
        assert(mine@ =~= other@);
        true
    }
}

impl Default for FwCfgFile {
    fn default() -> (f: FwCfgFile)
        ensures
            f@.size == 0,
            f@.key == 0,
            f@.name.len() == 0,
    {
        let f = FwCfgFile { size: 0, key: 0, name: [0u8; 56] };
        proof {
            lemma_nul_len_at(f.name@, 0);
        }
        f
    }
}

} // verus!
