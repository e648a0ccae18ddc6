//! A device held in memory: items given up front, accesses recorded.

use vstd::prelude::*;

use crate::model::item_bytes;
use crate::transport::Transport;

verus! {

/// The bytes of item `key` among `items`: those of the first pair with that key, or none.
pub open spec fn item_lookup(items: Seq<(u16, Vec<u8>)>, key: u16) -> Seq<u8>
    decreases items.len(),
{
    if items.len() == 0 {
        Seq::empty()
    } else if items[0].0 == key {
        items[0].1@
    } else {
        item_lookup(items.drop_first(), key)
    }
}

/// Where reads stand: the selected key, the read position clamped to the end of the item,
/// and the read position itself.
#[derive(Clone, Copy)]
struct Cursor {
    key: u16,
    position: usize,
    offset: Ghost<nat>,
}

/// The items of a device and where reads stand in them.
struct ItemReader {
    items: Vec<(u16, Vec<u8>)>,
    cursor: Cursor,
}

impl ItemReader {
    /// The read position is the offset, clamped to the end of the selected item.
    #[verifier::type_invariant]
    closed spec fn cursor_in_item(&self) -> bool {
        let len = item_lookup(self.items@, self.cursor.key).len();
        self.cursor.position == if self.cursor.offset@ < len {
            self.cursor.offset@
        } else {
            len
        }
    }

    closed spec fn contents(&self) -> spec_fn(u16) -> Seq<u8> {
        |k: u16| item_lookup(self.items@, k)
    }

    fn new(items: Vec<(u16, Vec<u8>)>) -> (r: ItemReader)
        ensures
            r.items@ == items@,
            r.cursor.key == 0,
            r.cursor.offset@ == 0,
    {
        ItemReader { items, cursor: Cursor { key: 0, position: 0, offset: Ghost(0) } }
    }

    fn select(&mut self, key: u16)
        ensures
            final(self).items@ == old(self).items@,
            final(self).cursor.key == key,
            final(self).cursor.offset@ == 0,
    {
        self.cursor = Cursor { key, position: 0, offset: Ghost(0) };
    }

    /// The position of the item with key `key` among the items, if any.
    fn item_index(&self, key: u16) -> (r: Option<usize>)
        ensures
            match r {
                Some(i) => i < self.items@.len() && item_lookup(self.items@, key)
                    == self.items@[i as int].1@,
                None => item_lookup(self.items@, key) == Seq::<u8>::empty(),
            },
    {
        let mut i: usize = 0;
        assert(self.items@.skip(0) =~= self.items@);
        while i < self.items.len()
            invariant
                i <= self.items@.len(),
                item_lookup(self.items@, key) == item_lookup(self.items@.skip(i as int), key),
            decreases self.items@.len() - i,
        {
            assert(self.items@.skip(i as int)[0] == self.items@[i as int]);
            assert(self.items@.skip(i as int).drop_first() =~= self.items@.skip(i + 1));
            if self.items[i].0 == key {
                return Some(i);
            }
            i = i + 1;
        }
        assert(self.items@.skip(i as int) =~= Seq::<(u16, Vec<u8>)>::empty());
        None
    }

    fn read(&mut self, buffer: &mut [u8])
        ensures
            final(self).items@ == old(self).items@,
            final(self).cursor.key == old(self).cursor.key,
            final(self).cursor.offset@ == old(self).cursor.offset@ + old(buffer)@.len(),
            final(buffer)@ == Seq::new(
                old(buffer)@.len(),
                |k: int| {
                    let item = item_lookup(old(self).items@, old(self).cursor.key);
                    let pos = old(self).cursor.offset@ + k;
                    if 0 <= pos < item.len() {
                        item[pos]
                    } else {
                        0u8
                    }
                },
            ),
    {
        proof {
            use_type_invariant(&*self);
        }
        let cursor = self.cursor;
        let found = self.item_index(cursor.key);
        let item_len = match found {
            Some(ix) => self.items[ix].1.len(),
            None => 0,
        };
        let ghost item = item_lookup(self.items@, cursor.key);
        let n = buffer.len();
        let mut i: usize = 0;
        while i < n
            invariant
                i <= n,
                buffer@.len() == n,
                self.items@ == old(self).items@,
                cursor == old(self).cursor,
                item == item_lookup(self.items@, cursor.key),
                item_len == item.len(),
                cursor.position == if cursor.offset@ < item_len {
                    cursor.offset@
                } else {
                    item_len as nat
                },
                match found {
                    Some(ix) => ix < self.items@.len() && item == self.items@[ix as int].1@,
                    None => item_len == 0,
                },
                forall|k: int|
                    0 <= k < i ==> buffer@[k] == if 0 <= cursor.offset@ + k < item.len() {
                        item[cursor.offset@ + k]
                    } else {
                        0u8
                    },
            decreases n - i,
        {
            let b = match found {
                Some(ix) => {
                    if cursor.position < item_len && i < item_len - cursor.position {
                        self.items[ix].1[cursor.position + i]
                    } else {
                        0
                    }
                },
                None => 0,
            };
            buffer[i] = b;
            i = i + 1;
        }
        let position = if n < item_len - cursor.position {
            cursor.position + n
        } else {
            item_len
        };
        self.cursor = Cursor { key: cursor.key, position, offset: Ghost((cursor.offset@ + n) as nat) };
        assert(buffer@ =~= Seq::new(
            n as nat,
            |k: int| {
                let pos = cursor.offset@ + k;
                if 0 <= pos < item.len() {
                    item[pos]
                } else {
                    0u8
                }
            },
        ));
    }
}

/// A device whose items are held in memory.
///
/// Reads follow the selected item and give zero bytes past its end; an unknown key selects
/// an empty item. DMA transfers are recorded, and reading back a transfer's control word
/// gives the words set with `set_dma_controls`, in order, then zero.
pub struct MemoryDevice {
    reader: ItemReader,
    selections: Vec<u16>,
    dma_log: Vec<(u32, Vec<u8>)>,
    dma_controls: Vec<u32>,
    polls: usize,
}

impl MemoryDevice {
    /// The bytes of each item (an item the device does not have is empty).
    pub closed spec fn contents(&self) -> spec_fn(u16) -> Seq<u8> {
        self.reader.contents()
    }

    /// The key in the selector register.
    pub closed spec fn selected(&self) -> u16 {
        self.reader.cursor.key
    }

    /// The read position within the selected item.
    pub closed spec fn offset(&self) -> nat {
        self.reader.cursor.offset@
    }

    /// The keys written to the selector register so far, in order.
    pub closed spec fn selection_log(&self) -> Seq<u16> {
        self.selections@
    }

    /// The DMA transfers handed to the device so far: control words and data.
    pub closed spec fn dma_log(&self) -> Seq<(u32, Seq<u8>)> {
        self.dma_log@.map_values(|e: (u32, Vec<u8>)| (e.0, e.1@))
    }

    /// The control words still to be given back, in order.
    pub closed spec fn pending_controls(&self) -> Seq<u32> {
        if self.polls <= self.dma_controls@.len() {
            self.dma_controls@.skip(self.polls as int)
        } else {
            Seq::empty()
        }
    }

    /// A device with the given items (key and bytes; the first of equal keys counts), with
    /// key zero selected.
    pub fn new(items: Vec<(u16, Vec<u8>)>) -> (r: MemoryDevice)
        ensures
            forall|k: u16| #[trigger] (r.contents())(k) == item_lookup(items@, k),
            r.selected() == 0,
            r.offset() == 0,
            r.selection_log().len() == 0,
            r.dma_log().len() == 0,
            r.pending_controls().len() == 0,
    {
        MemoryDevice {
            reader: ItemReader::new(items),
            selections: Vec::new(),
            dma_log: Vec::new(),
            dma_controls: Vec::new(),
            polls: 0,
        }
    }

    /// Set the control words that reading back a transfer gives, in order.
    pub fn set_dma_controls(&mut self, controls: Vec<u32>)
        ensures
            final(self).pending_controls() == controls@,
            final(self).contents() == old(self).contents(),
            final(self).selected() == old(self).selected(),
            final(self).offset() == old(self).offset(),
            final(self).selection_log() == old(self).selection_log(),
            final(self).dma_log() == old(self).dma_log(),
    {
        self.dma_controls = controls;
        self.polls = 0;
        assert(self.dma_controls@.skip(0) =~= self.dma_controls@);
    }

    /// The keys written to the selector register so far, in order.
    pub fn selections(&self) -> (r: &[u16])
        ensures
            r@ == self.selection_log(),
    {
        self.selections.as_slice()
    }

    /// Number of DMA transfers handed to the device so far.
    pub fn dma_transfers(&self) -> (r: usize)
        ensures
            r == self.dma_log().len(),
    {
        self.dma_log.len()
    }
}

impl Transport for MemoryDevice {
    open spec fn faithful(&self) -> bool {
        true
    }

    open spec fn items(&self) -> spec_fn(u16) -> Seq<u8> {
        self.contents()
    }

    open spec fn selected_key(&self) -> u16 {
        self.selected()
    }

    open spec fn read_offset(&self) -> nat {
        self.offset()
    }

    fn select(&mut self, key: u16)
        ensures
            final(self).contents() == old(self).contents(),
            final(self).selected() == key,
            final(self).offset() == 0,
            final(self).selection_log() == old(self).selection_log().push(key),
            final(self).dma_log() == old(self).dma_log(),
            final(self).pending_controls() == old(self).pending_controls(),
    {
        self.selections.push(key);
        self.reader.select(key);
    }

    fn read(&mut self, buffer: &mut [u8])
        ensures
            final(buffer)@ == item_bytes(
                old(self).contents(),
                old(self).selected(),
                old(self).offset() as int,
                old(buffer)@.len(),
            ),
            final(self).contents() == old(self).contents(),
            final(self).selected() == old(self).selected(),
            final(self).offset() == old(self).offset() + old(buffer)@.len(),
            final(self).selection_log() == old(self).selection_log(),
            final(self).dma_log() == old(self).dma_log(),
            final(self).pending_controls() == old(self).pending_controls(),
    {
        self.reader.read(buffer);
        assert(buffer@ =~= item_bytes(
            old(self).contents(),
            old(self).selected(),
            old(self).offset() as int,
            old(buffer)@.len(),
        ));
    }

    fn start_dma(&mut self, control: u32, data: &[u8])
        ensures
            final(self).dma_log() == old(self).dma_log().push((control, data@)),
            final(self).contents() == old(self).contents(),
            final(self).selected() == old(self).selected(),
            final(self).offset() == old(self).offset(),
            final(self).selection_log() == old(self).selection_log(),
            final(self).pending_controls() == old(self).pending_controls(),
    {
        let mut copy: Vec<u8> = Vec::new();
        let mut i: usize = 0;
        while i < data.len()
            invariant
                i <= data@.len(),
                copy@ == data@.take(i as int),
            decreases data@.len() - i,
        {
            copy.push(data[i]);
            i = i + 1;
            assert(copy@ =~= data@.take(i as int));
        }
        assert(data@.take(data@.len() as int) =~= data@);
        let ghost log = self.dma_log();
        self.dma_log.push((control, copy));
        assert(self.dma_log() =~= log.push((control, data@)));
    }

    fn dma_control(&mut self) -> (r: u32)
        ensures
            old(self).pending_controls().len() > 0 ==> r == old(self).pending_controls()[0]
                && final(self).pending_controls() == old(self).pending_controls().drop_first(),
            old(self).pending_controls().len() == 0 ==> r == 0 && final(self).pending_controls()
                == old(self).pending_controls(),
            final(self).contents() == old(self).contents(),
            final(self).selected() == old(self).selected(),
            final(self).offset() == old(self).offset(),
            final(self).selection_log() == old(self).selection_log(),
            final(self).dma_log() == old(self).dma_log(),
    {
        if self.polls < self.dma_controls.len() {
            let r = self.dma_controls[self.polls];
            let ghost before = self.dma_controls@.skip(self.polls as int);
            self.polls = self.polls + 1;
            assert(self.dma_controls@.skip(self.polls as int) =~= before.drop_first());
            r
        } else {
            0
        }
    }
}

} // verus!
