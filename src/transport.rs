//! The register interface of the device, and the record of accesses made through it.

use vstd::prelude::*;

use crate::model::item_bytes;

verus! {

/// Selector key of the signature item.
pub const SIGNATURE_KEY: u16 = 0x0000;

/// Selector key of the feature bitmap item.
pub const FEATURE_BITMAP_KEY: u16 = 0x0001;

/// Selector key of the file directory item.
pub const DIRECTORY_KEY: u16 = 0x0019;

/// One access to the device's registers, with what the device answered.
pub enum Access {
    /// A key written to the selector register.
    Select(u16),
    /// Bytes read from the data register, in order.
    Read(Seq<u8>),
    /// A DMA transfer handed to the device: its control word and its data.
    StartDma(u32, Seq<u8>),
    /// A control word read back from the descriptor of the transfer started last.
    PollDma(u32),
}

/// The bytes of a read access (none for any other access).
pub open spec fn read_data(a: Access) -> Seq<u8> {
    match a {
        Access::Read(b) => b,
        _ => Seq::empty(),
    }
}

/// The control word of a poll access (zero for any other access).
pub open spec fn polled_control(a: Access) -> u32 {
    match a {
        Access::PollDma(c) => c,
        _ => 0,
    }
}

/// Access to the selector, data and DMA registers of one device.
///
/// Register accesses cannot fail: a missing device shows up only as unexpected data. An
/// implementation may declare itself faithful: it then answers as a device holding
/// `items()` does, where a selection rewinds to the start of the item selected and each
/// read gives the next bytes of the selected item, zero past its end. Nothing is promised
/// of one that does not.
pub trait Transport {
    /// Whether these registers are known to answer as a device holding `items()`.
    open spec fn faithful(&self) -> bool {
        false
    }

    /// The bytes of each item of a faithful device.
    open spec fn items(&self) -> spec_fn(u16) -> Seq<u8> {
        |k: u16| Seq::empty()
    }

    /// The selected key of a faithful device.
    open spec fn selected_key(&self) -> u16 {
        0
    }

    /// The read position within the selected item of a faithful device.
    open spec fn read_offset(&self) -> nat {
        0
    }

    /// Write `key` to the selector register, which rewinds reads to the start of that item.
    fn select(&mut self, key: u16)
        ensures
            old(self).faithful() ==> final(self).faithful() && final(self).items() == old(self).items() && final(self).selected_key() == key && final(self).read_offset() == 0,
    ;

    /// Fill `buffer` with the next bytes of the selected item, in order.
    fn read(&mut self, buffer: &mut [u8])
        ensures
            final(buffer)@.len() == old(buffer)@.len(),
            old(self).faithful() ==> final(self).faithful() && final(self).items() == old(self).items() && final(self).selected_key() == old(self).selected_key()
                && final(self).read_offset() == old(self).read_offset() + old(buffer)@.len()
                && final(buffer)@ == item_bytes(
                old(self).items(),
                old(self).selected_key(),
                old(self).read_offset() as int,
                old(buffer)@.len(),
            ),
    ;

    /// Hand the device a DMA transfer with control word `control` over `data`, by writing
    /// the address of its descriptor to the DMA address register, upper half first.
    ///
    /// During the transfer the device may change its items.
    fn start_dma(&mut self, control: u32, data: &[u8])
        requires
            data@.len() <= u32::MAX,
    ;

    /// Read the control word of the descriptor of the transfer started last, as the
    /// device left it.
    fn dma_control(&mut self) -> (r: u32);
}

} // verus!
