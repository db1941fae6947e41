//! Block devices: the interface the storage code reads and writes through,
//! the registry of known devices, and the built-in RAM disk.
use vstd::prelude::*;
use vstd::string::StringSliceAdditionalSpecFns;

verus! {

/// Name of the built-in RAM disk.
pub const RAMBLK0_NAME: &'static str = "ramblk0";
/// Block size of the RAM disk.
pub const RAMBLK0_BLOCK_SIZE: usize = 512;
/// Number of blocks of the RAM disk.
pub const RAMBLK0_BLOCKS: u64 = 8;
/// Most devices the registry holds.
pub const MAX_BLOCK_DEVICES: usize = 8;

#[derive(Clone, Copy, Debug, PartialEq, Eq, Structural)]
pub enum BlockError {
    NotFound,
    OutOfRange,
    BufferTooSmall,
    Io,
}

/// What the registry knows of a device.
#[derive(Clone, Copy)]
pub struct BlockDeviceInfo {
    pub name: &'static str,
    pub driver: &'static str,
    pub block_size: usize,
    pub blocks: u64,
    pub readonly: bool,
}

impl BlockDeviceInfo {
    /// Capacity in bytes (wrapping, as the `u64` product does).
    pub fn bytes(&self) -> (r: u64)
        ensures
            r == (self.block_size as int * self.blocks as int) % 0x1_0000_0000_0000_0000,
    {
        let bs = self.block_size as u64;
        assert(bs * self.blocks <= u128::MAX) by (nonlinear_arith)
            requires
                bs <= u64::MAX,
                self.blocks <= u64::MAX,
        ;
        let p = (bs as u128) * (self.blocks as u128);
        assert(p == bs * self.blocks) by (nonlinear_arith)
            requires
                p == bs as u128 * self.blocks as u128,
                bs <= u64::MAX,
                self.blocks <= u64::MAX,
        ;
        (p % 0x1_0000_0000_0000_0000) as u64
    }
}

/// Reading and writing whole blocks of named devices.
pub trait BlockIo {
    /// The bytes of block `lba` of the device named `name` (its name as
    /// bytes) in this state. A device that stores blocks gives their
    /// contents here; under the provided model, which holds no block, the
    /// contracts below let a device report only transfers of no bytes.
    open spec fn block_at(&self, name: Seq<u8>, lba: u64) -> Seq<u8> {
        Seq::empty()
    }

    /// Whether block `lba` of device `name` can be read in this state; the
    /// provided model promises no block.
    open spec fn readable(&self, name: Seq<u8>, lba: u64) -> bool {
        false
    }

    /// Reads block `lba` of device `name` into the start of `buf`; returns
    /// the number of bytes read, which are the first bytes of the block.
    /// Reading changes no block.
    fn read_block(&mut self, name: &str, lba: u64, buf: &mut [u8]) -> (r: Result<usize, BlockError>)
        ensures
            final(buf)@.len() == old(buf)@.len(),
            r matches Ok(n) ==> n <= old(buf)@.len() && n <= old(self).block_at(name.spec_bytes(), lba).len()
                && final(buf)@.subrange(0, n as int) == old(self).block_at(name.spec_bytes(), lba).subrange(0, n as int),
            old(self).readable(name.spec_bytes(), lba) && old(buf)@.len() >= old(self).block_at(name.spec_bytes(), lba).len()
                ==> r == Ok::<usize, BlockError>(old(self).block_at(name.spec_bytes(), lba).len() as usize),
            forall|d: Seq<u8>, l: u64| #[trigger] final(self).readable(d, l) == old(self).readable(d, l),
            forall|d: Seq<u8>, l: u64| #[trigger] final(self).block_at(d, l) == old(self).block_at(d, l);

    /// Writes the start of `buf` to block `lba` of device `name`; returns the
    /// number of bytes written, which now begin the block. No other block
    /// changes, and a refused write changes nothing.
    fn write_block(&mut self, name: &str, lba: u64, buf: &[u8]) -> (r: Result<usize, BlockError>)
        ensures
            r matches Ok(n) ==> n <= buf@.len() && n <= old(self).block_at(name.spec_bytes(), lba).len()
                && final(self).block_at(name.spec_bytes(), lba) == buf@.subrange(0, n as int)
                    + old(self).block_at(name.spec_bytes(), lba).subrange(n as int, old(self).block_at(name.spec_bytes(), lba).len() as int),
            forall|d: Seq<u8>, l: u64| !(d == name.spec_bytes() && l == lba) ==> #[trigger] final(self).block_at(d, l) == old(self).block_at(d, l),
            r is Err ==> forall|d: Seq<u8>, l: u64| #[trigger] final(self).block_at(d, l) == old(self).block_at(d, l);
}

/// The same blocks can be read in `a` and `b`.
pub open spec fn same_readable<D: BlockIo>(a: D, b: D) -> bool {
    forall|d: Seq<u8>, l: u64| #[trigger] a.readable(d, l) == b.readable(d, l)
}

/// No block of any device differs between `a` and `b`.
pub open spec fn same_blocks<D: BlockIo>(a: D, b: D) -> bool {
    forall|d: Seq<u8>, l: u64| #[trigger] a.block_at(d, l) == b.block_at(d, l)
}

/// The RAM disk: 8 blocks of 512 bytes.
pub struct RamBlock {
    pub data: Vec<u8>,
}

/// The greeting the RAM disk starts with.
pub open spec fn ramblk0_seed() -> Seq<u8> {
    "Dunit OS ramblk0 block device\n".spec_bytes()
}

impl RamBlock {
    pub open spec fn wf(&self) -> bool {
        self.data@.len() == 4096
    }

    /// Block `lba` of the disk.
    pub open spec fn block(&self, lba: int) -> Seq<u8> {
        self.data@.subrange(lba * 512, lba * 512 + 512)
    }

    /// A zeroed disk that starts with the greeting.
    pub fn new() -> (r: Self)
        ensures
            r.wf(),
            forall|k: int| 0 <= k < 4096 ==> r.data@[k] == (if k < ramblk0_seed().len() { ramblk0_seed()[k] } else { 0u8 }),
    {
        let message = "Dunit OS ramblk0 block device\n".as_bytes();
        let mut data: Vec<u8> = Vec::new();
        let mut i: usize = 0;
        while i < 4096
            invariant
                i <= 4096,
                data@.len() == i,
                message@ == ramblk0_seed(),
                forall|k: int| 0 <= k < i ==> data@[k] == (if k < message@.len() { message@[k] } else { 0u8 }),
            decreases 4096 - i,
        {
            let b = if i < message.len() { message[i] } else { 0u8 };
            data.push(b);
            i = i + 1;
        }
        RamBlock { data }
    }

    /// Reads block `lba` into the start of `buf`.
    pub fn read(&self, lba: u64, buf: &mut [u8]) -> (r: Result<usize, BlockError>)
        requires
            self.wf(),
        ensures
            lba >= RAMBLK0_BLOCKS ==> r == Err::<usize, BlockError>(BlockError::OutOfRange) && final(buf)@ == old(buf)@,
            lba < RAMBLK0_BLOCKS && old(buf)@.len() < 512 ==> r == Err::<usize, BlockError>(BlockError::BufferTooSmall) && final(buf)@ == old(buf)@,
            lba < RAMBLK0_BLOCKS && old(buf)@.len() >= 512 ==> r == Ok::<usize, BlockError>(512)
                && final(buf)@ == self.block(lba as int) + old(buf)@.subrange(512, old(buf)@.len() as int),
    {
        if lba >= RAMBLK0_BLOCKS {
            return Err(BlockError::OutOfRange);
        }
        if buf.len() < RAMBLK0_BLOCK_SIZE {
            return Err(BlockError::BufferTooSmall);
        }
        let offset = lba as usize * 512;
        let mut i: usize = 0;
        while i < 512
            invariant
                self.wf(),
                lba < 8,
                offset == lba * 512,
                i <= 512,
                buf@.len() == old(buf)@.len(),
                buf@.len() >= 512,
                forall|k: int| 0 <= k < i ==> buf@[k] == self.data@[offset + k],
                forall|k: int| i <= k < buf@.len() ==> buf@[k] == old(buf)@[k],
            decreases 512 - i,
        {
            buf[i] = self.data[offset + i];
            i = i + 1;
        }
        assert(buf@ =~= self.block(lba as int) + old(buf)@.subrange(512, old(buf)@.len() as int));
        Ok(512)
    }

    /// Writes the start of `buf` to block `lba`.
    pub fn write(&mut self, lba: u64, buf: &[u8]) -> (r: Result<usize, BlockError>)
        requires
            old(self).wf(),
        ensures
            final(self).wf(),
            lba >= RAMBLK0_BLOCKS ==> r == Err::<usize, BlockError>(BlockError::OutOfRange) && final(self).data@ == old(self).data@,
            lba < RAMBLK0_BLOCKS && buf@.len() < 512 ==> r == Err::<usize, BlockError>(BlockError::BufferTooSmall) && final(self).data@ == old(self).data@,
            lba < RAMBLK0_BLOCKS && buf@.len() >= 512 ==> r == Ok::<usize, BlockError>(512)
                && final(self).data@ == old(self).data@.subrange(0, lba * 512) + buf@.subrange(0, 512)
                    + old(self).data@.subrange(lba * 512 + 512, 4096),
    {
        if lba >= RAMBLK0_BLOCKS {
            return Err(BlockError::OutOfRange);
        }
        if buf.len() < RAMBLK0_BLOCK_SIZE {
            return Err(BlockError::BufferTooSmall);
        }
        let offset = lba as usize * 512;
        let mut i: usize = 0;
        while i < 512
            invariant
                self.data@.len() == 4096,
                lba < 8,
                offset == lba * 512,
                i <= 512,
                buf@.len() >= 512,
                forall|k: int| 0 <= k < offset ==> self.data@[k] == old(self).data@[k],
                forall|k: int| 0 <= k < i ==> self.data@[offset + k] == buf@[k],
                forall|k: int| offset + i <= k < 4096 ==> self.data@[k] == old(self).data@[k],
            decreases 512 - i,
        {
            self.data.set(offset + i, buf[i]);
            i = i + 1;
        }
        assert(self.data@ =~= old(self).data@.subrange(0, lba * 512) + buf@.subrange(0, 512)
            + old(self).data@.subrange(lba * 512 + 512, 4096));
        Ok(512)
    }
}

impl BlockIo for RamBlock {
    /// The disk's blocks under its own name; other names and blocks past
    /// the end hold nothing.
    open spec fn block_at(&self, name: Seq<u8>, lba: u64) -> Seq<u8> {
        if name == RAMBLK0_NAME.spec_bytes() && lba < RAMBLK0_BLOCKS && self.wf() { self.block(lba as int) } else { Seq::empty() }
    }

    /// Every block of the disk can be read.
    open spec fn readable(&self, name: Seq<u8>, lba: u64) -> bool {
        name == RAMBLK0_NAME.spec_bytes() && lba < RAMBLK0_BLOCKS && self.wf()
    }

    fn read_block(&mut self, name: &str, lba: u64, buf: &mut [u8]) -> (r: Result<usize, BlockError>) {
        if !self.data_ok() {
            return Err(BlockError::Io);
        }
        if !str_eq(name, RAMBLK0_NAME) {
            return Err(BlockError::NotFound);
        }
        let r = self.read(lba, buf);
        proof {
            if r is Ok {
                assert(buf@.subrange(0, 512) =~= self.block(lba as int));
            }
        }
        r
    }

    fn write_block(&mut self, name: &str, lba: u64, buf: &[u8]) -> (r: Result<usize, BlockError>) {
        if !self.data_ok() {
            return Err(BlockError::Io);
        }
        if !str_eq(name, RAMBLK0_NAME) {
            return Err(BlockError::NotFound);
        }
        let ghost b0 = *self;
        let r = self.write(lba, buf);
        proof {
            if r is Ok {
                let l0 = lba as int;
                assert(self.block(l0) =~= buf@.subrange(0, 512));
                assert(b0.block(l0).subrange(512, 512) =~= Seq::<u8>::empty());
                assert(self.block(l0) =~= buf@.subrange(0, 512) + b0.block(l0).subrange(512, 512));
                assert forall|d: Seq<u8>, l: u64| !(d == name.spec_bytes() && l == lba) implies #[trigger] self.block_at(d, l) == b0.block_at(d, l) by {
                    if d == RAMBLK0_NAME.spec_bytes() && l < RAMBLK0_BLOCKS && l != lba {
                        assert(self.block(l as int) =~= b0.block(l as int));
                    }
                }
            }
        }
        r
    }
}

impl RamBlock {
    fn data_ok(&self) -> (r: bool)
        ensures
            r == self.wf(),
    {
        self.data.len() == 4096
    }
}

/// Whether two strings hold the same bytes.
pub fn str_eq(a: &str, b: &str) -> (r: bool)
    ensures
        r == (a.spec_bytes() == b.spec_bytes()),
{
    crate::fs::memfs::bytes_eq(a.as_bytes(), b.as_bytes())
}

/// `i` is the first device named `name`.
pub open spec fn is_first_named(s: Seq<BlockDeviceInfo>, name: Seq<u8>, i: int) -> bool {
    &&& 0 <= i < s.len()
    &&& s[i].name.spec_bytes() == name
    &&& forall|j: int| 0 <= j < i ==> (#[trigger] s[j]).name.spec_bytes() != name
}

/// Position of the first device named `name`, if any.
pub open spec fn named_pos(s: Seq<BlockDeviceInfo>, name: Seq<u8>) -> Option<int> {
    if exists|i: int| is_first_named(s, name, i) {
        Some(choose|i: int| is_first_named(s, name, i))
    } else {
        None
    }
}

proof fn lemma_first_named_unique(s: Seq<BlockDeviceInfo>, name: Seq<u8>, i: int, j: int)
    requires
        is_first_named(s, name, i),
        is_first_named(s, name, j),
    ensures
        i == j,
{
    if i < j {
        assert(s[i].name.spec_bytes() != name);
    } else if j < i {
        assert(s[j].name.spec_bytes() != name);
    }
}

/// The devices known to the system, in registration order.
pub struct BlockRegistry {
    pub devices: Vec<BlockDeviceInfo>,
}

impl BlockRegistry {
    pub fn new() -> (r: Self)
        ensures
            r.devices@.len() == 0,
    {
        BlockRegistry { devices: Vec::new() }
    }

    /// Adds a device; one with the same name is replaced in place, and a
    /// full registry ignores new names.
    pub fn register_device(&mut self, info: BlockDeviceInfo)
        ensures
            named_pos(old(self).devices@, info.name.spec_bytes()) matches Some(i)
                ==> final(self).devices@ == old(self).devices@.update(i, info),
            named_pos(old(self).devices@, info.name.spec_bytes()) is None && old(self).devices@.len() < MAX_BLOCK_DEVICES
                ==> final(self).devices@ == old(self).devices@.push(info),
            named_pos(old(self).devices@, info.name.spec_bytes()) is None && old(self).devices@.len() >= MAX_BLOCK_DEVICES
                ==> final(self).devices@ == old(self).devices@,
    {
        let ghost olds = self.devices@;
        let ghost nm = info.name.spec_bytes();
        let mut i: usize = 0;
        while i < self.devices.len()
            invariant
                self.devices@ == olds,
                olds == old(self).devices@,
                nm == info.name.spec_bytes(),
                i <= olds.len(),
                forall|j: int| 0 <= j < i ==> (#[trigger] olds[j]).name.spec_bytes() != nm,
            decreases self.devices.len() - i,
        {
            if str_eq(self.devices[i].name, info.name) {
                proof {
                    assert(is_first_named(olds, nm, i as int));
                    let k = choose|k: int| is_first_named(olds, nm, k);
                    lemma_first_named_unique(olds, nm, i as int, k);
                }
                self.devices.set(i, info);
                return;
            }
            i = i + 1;
        }
        proof {
            if exists|k: int| is_first_named(olds, nm, k) {
                let k = choose|k: int| is_first_named(olds, nm, k);
                assert(olds[k].name.spec_bytes() != nm);
            }
        }
        if self.devices.len() < MAX_BLOCK_DEVICES {
            self.devices.push(info);
        }
    }

    /// The first device named `name`.
    pub fn find_device(&self, name: &str) -> (r: Option<BlockDeviceInfo>)
        ensures
            r is None ==> forall|i: int| 0 <= i < self.devices@.len() ==> self.devices@[i].name.spec_bytes() != name.spec_bytes(),
            r matches Some(d) ==> exists|i: int| 0 <= i < self.devices@.len() && self.devices@[i] == d
                && d.name.spec_bytes() == name.spec_bytes()
                && forall|j: int| 0 <= j < i ==> self.devices@[j].name.spec_bytes() != name.spec_bytes(),
    {
        let mut i: usize = 0;
        while i < self.devices.len()
            invariant
                i <= self.devices@.len(),
                forall|j: int| 0 <= j < i ==> self.devices@[j].name.spec_bytes() != name.spec_bytes(),
            decreases self.devices.len() - i,
        {
            if str_eq(self.devices[i].name, name) {
                return Some(self.devices[i]);
            }
            i = i + 1;
        }
        None
    }

    /// Copies the registered devices into `out`; returns how many.
    pub fn snapshot(&self, out: &mut [Option<BlockDeviceInfo>]) -> (n: usize)
        ensures
            n == (if self.devices@.len() < old(out)@.len() { self.devices@.len() as int } else { old(out)@.len() as int }),
            final(out)@.len() == old(out)@.len(),
            forall|i: int| 0 <= i < n ==> final(out)@[i] == Some(self.devices@[i]),
            forall|i: int| n <= i < old(out)@.len() ==> final(out)@[i] == old(out)@[i],
    {
        let n = if self.devices.len() < out.len() { self.devices.len() } else { out.len() };
        let mut i: usize = 0;
        while i < n
            invariant
                n <= self.devices@.len(),
                n <= out@.len(),
                out@.len() == old(out)@.len(),
                i <= n,
                forall|k: int| 0 <= k < i ==> out@[k] == Some(self.devices@[k]),
                forall|k: int| i <= k < out@.len() ==> out@[k] == old(out)@[k],
            decreases n - i,
        {
            out[i] = Some(self.devices[i]);
            i = i + 1;
        }
        n
    }
}

} // verus!
