//! DMA descriptors: the control block through which the device transfers data.

use vstd::prelude::*;

use crate::bytes::{be_u32_bytes, be_u64_bytes, u32_from_be, u32_to_be, u64_to_be, be_u32};
use crate::error::FwCfgWriteError;

verus! {

/// A DMA transfer: its control word, its length and the address of its data.
#[derive(Debug)]
pub struct FwCfgDmaAccess {
    control: u32,
    length: u32,
    address: u64,
}

/// Fields of a descriptor.
pub struct DmaAccessView {
    pub control: u32,
    pub length: u32,
    pub address: u64,
}

impl View for FwCfgDmaAccess {
    type V = DmaAccessView;

    closed spec fn view(&self) -> DmaAccessView {
        DmaAccessView { control: self.control, length: self.length, address: self.address }
    }
}

/// The control word of a transfer that selects item `key` and writes to it.
pub open spec fn write_control(key: u16) -> u32 {
    (key as u32) << 16u32 | FwCfgDmaAccess::WRITE | FwCfgDmaAccess::SELECT
}

/// The 16 bytes of a descriptor: control, length and address, each big-endian.
pub open spec fn descriptor_bytes(d: DmaAccessView) -> Seq<u8> {
    be_u32_bytes(d.control) + be_u32_bytes(d.length) + be_u64_bytes(d.address)
}

/// What a control word read back from the device says of the transfer: `None` while it
/// runs, then its result.
pub open spec fn dma_outcome_of(control: u32) -> Option<Result<(), FwCfgWriteError>> {
    if control & FwCfgDmaAccess::ERROR != 0 {
        Some(Err(FwCfgWriteError::DmaFailed))
    } else if control == 0 {
        Some(Ok(()))
    } else {
        None
    }
}

impl FwCfgDmaAccess {
    /// The device reports an error.
    pub const ERROR: u32 = 0x01;

    /// The transfer reads from the item.
    pub const READ: u32 = 0x02;

    /// The transfer skips bytes of the item.
    pub const SKIP: u32 = 0x04;

    /// The transfer first selects the item named in the upper half of the word.
    pub const SELECT: u32 = 0x08;

    /// The transfer writes to the item.
    pub const WRITE: u32 = 0x10;

    /// A descriptor for `length` bytes at `address` with control word `control`.
    pub fn new(control: u32, address: u64, length: usize) -> (r: FwCfgDmaAccess)
        requires
            length <= u32::MAX,
        ensures
            r@ == (DmaAccessView { control, length: length as u32, address }),
    {
        FwCfgDmaAccess { control, length: length as u32, address }
    }

    /// The bytes of this descriptor as the device reads them.
    pub fn to_bytes(&self) -> (r: [u8; 16])
        ensures
            r@ == descriptor_bytes(self@),
    {
        let c = u32_to_be(self.control);
        let l = u32_to_be(self.length);
        let a = u64_to_be(self.address);
        let r = [c[0], c[1], c[2], c[3], l[0], l[1], l[2], l[3], a[0], a[1], a[2], a[3], a[4], a[5], a[6], a[7]];
        assert(r@ =~= descriptor_bytes(self@));
        r
    }

    /// The control word held in the first four bytes of a descriptor.
    pub fn control_from_bytes(b: &[u8]) -> (r: u32)
        requires
            b@.len() >= 4,
        ensures
            r == be_u32(b@),
    {
        u32_from_be(b)
    }
}

/// The control word of a transfer that writes to the item with key `key`.
pub fn write_control_word(key: u16) -> (r: u32)
    ensures
        r == write_control(key),
{
    ((key as u32) << 16) | FwCfgDmaAccess::WRITE | FwCfgDmaAccess::SELECT
}

/// What a control word read back from the device says of the transfer.
pub fn dma_outcome(control: u32) -> (r: Option<Result<(), FwCfgWriteError>>)
    ensures
        r == dma_outcome_of(control),
{
    if control & FwCfgDmaAccess::ERROR != 0 {
        Some(Err(FwCfgWriteError::DmaFailed))
    } else if control == 0 {
        Some(Ok(()))
    } else {
        None
    }
}

/// The upper and lower halves of a descriptor address, in the order the device needs
/// them: writing the lower half starts the transfer, so it is written last.
pub fn dma_address_halves(address: u64) -> (r: (u32, u32))
    ensures
        r.0 as int * 0x1_0000_0000 + r.1 as int == address as int,
{
    ((address / 0x1_0000_0000) as u32, (address % 0x1_0000_0000) as u32)
}

} // verus!
