//! DunitFS: a small persistent file system inside one partition. Block 0
//! holds the superblock, the next 16 blocks a table of 64 node entries of
//! 128 bytes, and file data follows in contiguous block runs.
use vstd::prelude::*;
use vstd::string::StringSliceAdditionalSpecFns;
use crate::drivers::block::{BlockDeviceInfo, BlockIo, same_blocks, same_readable};
use crate::fs::vfs::{FileHandle, FileStat, FileType, OpenFlags, VfsError, flag_set, flags_valid, OPEN_READ, OPEN_WRITE, OPEN_APPEND, OPEN_CREATE, OPEN_TRUNC};
use crate::fs::memfs::{clean, clean_path, bytes_eq, copy_range, last_slash, find_last_slash};
use crate::storage::gpt::{
    bytes32, bytes64, crc32, crc32_spec, le32_at, le64_at, le_u32, le_u64, push_all, push_u32, push_u64, zeroed,
    lemma_le32_at, lemma_le64_at,
};

verus! {

pub const VERSION: u32 = 1;
pub const BLOCK_SIZE: usize = 512;
pub const MAX_NODES: usize = 64;
pub const NODE_SIZE: usize = 128;
pub const PATH_SIZE: usize = 96;
pub const METADATA_START: u64 = 1;
pub const METADATA_BLOCKS: u64 = 16;
pub const DATA_START: u64 = 17;

/// The superblock magic `DUNITFS1`.
pub open spec fn dunitfs_magic() -> Seq<u8> {
    seq![0x44u8, 0x55u8, 0x4Eu8, 0x49u8, 0x54u8, 0x46u8, 0x53u8, 0x31u8]
}

#[derive(Clone, Copy, Debug, PartialEq, Eq, Structural)]
pub enum DunitFsError {
    InvalidBlockSize,
    PartitionTooSmall,
    InvalidSuperblock,
    CorruptMetadata,
    AlreadyMounted,
    Io,
    Vfs(VfsError),
}

impl DunitFsError {
    /// A message for the error.
    pub fn as_str(self) -> (r: &'static str)
        ensures
            r@ == dunitfs_error_message(self)@,
    {
        match self {
            DunitFsError::InvalidBlockSize => "block size must be 512 bytes",
            DunitFsError::PartitionTooSmall => "partition is too small",
            DunitFsError::InvalidSuperblock => "invalid DunitFS superblock",
            DunitFsError::CorruptMetadata => "corrupt DunitFS metadata",
            DunitFsError::AlreadyMounted => "DunitFS is already mounted",
            DunitFsError::Io => "block I/O error",
            DunitFsError::Vfs(_) => "VFS mount error",
        }
    }
}

pub open spec fn dunitfs_error_message(e: DunitFsError) -> &'static str {
    match e {
        DunitFsError::InvalidBlockSize => "block size must be 512 bytes",
        DunitFsError::PartitionTooSmall => "partition is too small",
        DunitFsError::InvalidSuperblock => "invalid DunitFS superblock",
        DunitFsError::CorruptMetadata => "corrupt DunitFS metadata",
        DunitFsError::AlreadyMounted => "DunitFS is already mounted",
        DunitFsError::Io => "block I/O error",
        DunitFsError::Vfs(_) => "VFS mount error",
    }
}

/// Whether a partition can hold the file system: 512-byte blocks, room
/// past the node table, and inside the device.
pub open spec fn geometry_error(device: BlockDeviceInfo, start: u64, blocks: u64) -> Option<DunitFsError> {
    if device.block_size != BLOCK_SIZE {
        Some(DunitFsError::InvalidBlockSize)
    } else if blocks <= DATA_START || start + blocks > u64::MAX || start + blocks > device.blocks {
        Some(DunitFsError::PartitionTooSmall)
    } else {
        None
    }
}

pub fn validate_geometry(device: BlockDeviceInfo, partition_start: u64, partition_blocks: u64) -> (r: Result<(), DunitFsError>)
    ensures
        geometry_error(device, partition_start, partition_blocks) matches Some(e) ==> r == Err::<(), DunitFsError>(e),
        geometry_error(device, partition_start, partition_blocks) is None ==> r is Ok,
{
    if device.block_size != BLOCK_SIZE {
        return Err(DunitFsError::InvalidBlockSize);
    }
    if partition_blocks <= DATA_START || partition_start > u64::MAX - partition_blocks
        || partition_start + partition_blocks > device.blocks {
        return Err(DunitFsError::PartitionTooSmall);
    }
    Ok(())
}

/// The first 56 bytes of the superblock of a partition of `pb` blocks.
pub open spec fn superblock_body(pb: u64) -> Seq<u8> {
    dunitfs_magic() + bytes32(VERSION) + bytes32(512) + bytes64(pb) + bytes64(METADATA_START)
        + bytes32(16) + bytes32(64) + bytes64(DATA_START) + bytes64(1)
}

/// The superblock block: the body, its checksum, zero padding.
pub open spec fn superblock(pb: u64) -> Seq<u8> {
    superblock_body(pb) + bytes32(crc32_spec(superblock_body(pb))) + Seq::new(452, |i: int| 0u8)
}

/// Whether block `d` is the superblock of a partition of `pb` blocks.
pub open spec fn superblock_ok(d: Seq<u8>, pb: u64) -> bool {
    &&& d.subrange(0, 8) == dunitfs_magic()
    &&& le32_at(d, 8) == VERSION
    &&& le32_at(d, 12) == 512
    &&& le64_at(d, 16) == pb
    &&& le64_at(d, 24) == METADATA_START
    &&& le32_at(d, 32) == 16
    &&& le32_at(d, 36) == 64
    &&& le64_at(d, 40) == DATA_START
    &&& le32_at(d, 56) == crc32_spec(d.subrange(0, 56))
}

/// Builds the superblock of a partition of `pb` blocks.
pub fn superblock_image(pb: u64) -> (r: Vec<u8>)
    ensures
        r@ == superblock(pb),
{
    let magic: [u8; 8] = [0x44, 0x55, 0x4E, 0x49, 0x54, 0x46, 0x53, 0x31];
    assert(magic@ =~= dunitfs_magic());
    let mut body: Vec<u8> = Vec::new();
    push_all(&mut body, &magic);
    push_u32(&mut body, VERSION);
    push_u32(&mut body, 512);
    push_u64(&mut body, pb);
    push_u64(&mut body, METADATA_START);
    push_u32(&mut body, 16);
    push_u32(&mut body, 64);
    push_u64(&mut body, DATA_START);
    push_u64(&mut body, 1);
    assert(body@ =~= superblock_body(pb));
    let c = crc32(body.as_slice());
    let mut out = body;
    push_u32(&mut out, c);
    let z = zeroed(452);
    push_all(&mut out, z.as_slice());
    out
}

/// Checks a superblock.
pub fn check_superblock(d: &[u8], pb: u64) -> (r: bool)
    requires
        d@.len() == 512,
    ensures
        r == superblock_ok(d@, pb),
{
    let magic: [u8; 8] = [0x44, 0x55, 0x4E, 0x49, 0x54, 0x46, 0x53, 0x31];
    assert(magic@ =~= dunitfs_magic());
    let head = copy_range(d, 0, 8);
    if !bytes_eq(head.as_slice(), &magic) {
        return false;
    }
    if le_u32(d, 8) != VERSION || le_u32(d, 12) != 512 || le_u64(d, 16) != pb || le_u64(d, 24) != METADATA_START
        || le_u32(d, 32) != 16 || le_u32(d, 36) != 64 || le_u64(d, 40) != DATA_START {
        return false;
    }
    let c = crc32(copy_range(d, 0, 56).as_slice());
    le_u32(d, 56) == c
}

proof fn lemma_superblock_body_len(pb: u64)
    ensures
        superblock_body(pb).len() == 56,
{
    let p1 = dunitfs_magic() + bytes32(VERSION) + bytes32(512);
    assert(p1.len() == 16);
    let p2 = p1 + bytes64(pb) + bytes64(METADATA_START);
    assert(bytes64(pb).len() == 8);
    assert(bytes64(METADATA_START).len() == 8);
    assert(p2.len() == 32);
    let p3 = p2 + bytes32(16) + bytes32(64) + bytes64(DATA_START) + bytes64(1);
    assert(bytes64(DATA_START).len() == 8);
    assert(bytes64(1).len() == 8);
    assert(p3.len() == 56);
    assert(superblock_body(pb) == p3);
}

/// A freshly formatted partition's superblock passes the mount check.
#[verifier::spinoff_prover]
#[verifier::rlimit(40)]
pub proof fn law_superblock_round_trip(pb: u64)
    ensures
        superblock(pb).len() == 512,
        superblock_ok(superblock(pb), pb),
{
    lemma_superblock_body_len(pb);
    let b = superblock_body(pb);
    let d = superblock(pb);
    assert(d.subrange(0, 56) =~= b);
    assert(d.subrange(0, 8) =~= dunitfs_magic());
    assert(d.subrange(8, 12) =~= bytes32(VERSION));
    lemma_le32_at(d, 8, VERSION);
    assert(d.subrange(12, 16) =~= bytes32(512));
    lemma_le32_at(d, 12, 512);
    assert(d.subrange(16, 24) =~= bytes64(pb));
    lemma_le64_at(d, 16, pb);
    assert(d.subrange(24, 32) =~= bytes64(METADATA_START));
    lemma_le64_at(d, 24, METADATA_START);
    assert(d.subrange(32, 36) =~= bytes32(16));
    lemma_le32_at(d, 32, 16);
    assert(d.subrange(36, 40) =~= bytes32(64));
    lemma_le32_at(d, 36, 64);
    assert(d.subrange(40, 48) =~= bytes64(DATA_START));
    lemma_le64_at(d, 40, DATA_START);
    assert(d.subrange(56, 60) =~= bytes32(crc32_spec(b)));
    lemma_le32_at(d, 56, crc32_spec(b));
}


/// A stored file or directory: its path and its block run.
pub struct Node {
    pub path: Vec<u8>,
    pub file_type: FileType,
    pub size: u64,
    pub first_block: u64,
    pub block_count: u64,
}

/// A node as plain values.
#[verifier::ext_equal]
pub struct NodeInfo {
    pub path: Seq<u8>,
    pub file_type: FileType,
    pub size: u64,
    pub first_block: u64,
    pub block_count: u64,
}

impl View for Node {
    type V = NodeInfo;

    open spec fn view(&self) -> NodeInfo {
        NodeInfo { path: self.path@, file_type: self.file_type, size: self.size, first_block: self.first_block, block_count: self.block_count }
    }
}

/// The type byte of an entry.
pub open spec fn type_code(t: FileType) -> u8 {
    match t {
        FileType::File => 1u8,
        FileType::Directory => 2u8,
        FileType::Device => 0u8,
    }
}

/// The little-endian bytes of a 16-bit value.
pub open spec fn bytes16(v: u16) -> Seq<u8> {
    seq![(v & 0xff) as u8, (v >> 8u16) as u8]
}

/// The first 124 bytes of the entry of `n`.
pub open spec fn entry_body(n: NodeInfo) -> Seq<u8> {
    seq![1u8, type_code(n.file_type)] + bytes16(n.path.len() as u16) + bytes64(n.size) + bytes64(n.first_block)
        + bytes64(n.block_count) + n.path + Seq::new((96 - n.path.len()) as nat, |i: int| 0u8)
}

/// The 128-byte table entry of `n`.
pub open spec fn node_entry(n: NodeInfo) -> Seq<u8> {
    entry_body(n) + bytes32(crc32_spec(entry_body(n)))
}

/// Whether a node can be stored: a file or directory with a path of 1 to
/// 96 bytes.
pub open spec fn storable(n: NodeInfo) -> bool {
    &&& 1 <= n.path.len() <= PATH_SIZE
    &&& (n.file_type == FileType::File || n.file_type == FileType::Directory)
}

/// Encodes the table entry of a node.
pub fn encode_node(n: &Node) -> (r: Vec<u8>)
    requires
        storable(n@),
    ensures
        r@ == node_entry(n@),
{
    let mut body: Vec<u8> = Vec::new();
    body.push(1u8);
    body.push(match n.file_type {
        FileType::File => 1u8,
        FileType::Directory => 2u8,
        FileType::Device => 0u8,
    });
    let len = n.path.len() as u16;
    body.push((len & 0xff) as u8);
    body.push((len >> 8u16) as u8);
    push_u64(&mut body, n.size);
    push_u64(&mut body, n.first_block);
    push_u64(&mut body, n.block_count);
    push_all(&mut body, n.path.as_slice());
    let pad = zeroed(96 - n.path.len());
    push_all(&mut body, pad.as_slice());
    assert(body@ =~= entry_body(n@));
    let c = crc32(body.as_slice());
    push_u32(&mut body, c);
    body
}

/// The 16-bit value stored little-endian at `o`.
pub open spec fn le16_at(s: Seq<u8>, o: int) -> int {
    s[o] + s[o + 1] * 256
}

/// What a used entry decodes to (before the checks against the rest of
/// the table).
pub open spec fn entry_node(e: Seq<u8>) -> NodeInfo {
    NodeInfo {
        path: e.subrange(28, 28 + le16_at(e, 2)),
        file_type: if e[1] == 1 { FileType::File } else { FileType::Directory },
        size: le64_at(e, 4),
        first_block: le64_at(e, 12),
        block_count: le64_at(e, 20),
    }
}

/// Whether `bytes` is valid UTF-8.
fn utf8_valid(bytes: &[u8]) -> (r: bool)
    ensures
        r == vstd::utf8::valid_utf8(bytes@),
{
    crate::text::str_from_utf8(bytes).is_some()
}

/// `count * 512`, saturating at `u64::MAX`.
pub open spec fn blocks_bytes(count: u64) -> int {
    if count * 512 > u64::MAX { u64::MAX as int } else { count * 512 }
}

/// Why a used entry is corrupt on its own: checksum, type, path length,
/// path encoding, size beyond the run, a directory with data, or a run
/// outside the data area of a partition of `pb` blocks.
pub open spec fn entry_corrupt(e: Seq<u8>, pb: u64) -> bool {
    let n = entry_node(e);
    ||| le32_at(e, 124) != crc32_spec(e.subrange(0, 124))
    ||| (e[1] != 1 && e[1] != 2)
    ||| le16_at(e, 2) == 0
    ||| le16_at(e, 2) > PATH_SIZE
    ||| !vstd::utf8::valid_utf8(n.path)
    ||| n.size > blocks_bytes(n.block_count)
    ||| (n.file_type == FileType::Directory && (n.size != 0 || n.block_count != 0))
    ||| (n.block_count != 0 && (n.first_block < DATA_START || n.first_block + n.block_count > u64::MAX
        || n.first_block + n.block_count > pb))
}

/// Decodes a used table entry and checks it on its own.
pub fn decode_entry(e: &[u8], pb: u64) -> (r: Result<Node, DunitFsError>)
    requires
        e@.len() == 128,
    ensures
        entry_corrupt(e@, pb) ==> r == Err::<Node, DunitFsError>(DunitFsError::CorruptMetadata),
        !entry_corrupt(e@, pb) ==> (r matches Ok(n) && n@ == entry_node(e@)),
{
    let c = crc32(copy_range(e, 0, 124).as_slice());
    if le_u32(e, 124) != c {
        return Err(DunitFsError::CorruptMetadata);
    }
    let file_type = if e[1] == 1 {
        FileType::File
    } else if e[1] == 2 {
        FileType::Directory
    } else {
        return Err(DunitFsError::CorruptMetadata);
    };
    let path_len = e[2] as usize + e[3] as usize * 256;
    if path_len == 0 || path_len > PATH_SIZE {
        return Err(DunitFsError::CorruptMetadata);
    }
    let path = copy_range(e, 28, 28 + path_len);
    if !utf8_valid(path.as_slice()) {
        return Err(DunitFsError::CorruptMetadata);
    }
    let size = le_u64(e, 4);
    let first_block = le_u64(e, 12);
    let block_count = le_u64(e, 20);
    let cap: u64 = if block_count > u64::MAX / 512 { u64::MAX } else { block_count * 512 };
    if size > cap || (matches!(file_type, FileType::Directory) && (size != 0 || block_count != 0))
        || (block_count != 0 && (first_block < DATA_START || first_block > u64::MAX - block_count
            || first_block + block_count > pb)) {
        return Err(DunitFsError::CorruptMetadata);
    }
    Ok(Node { path, file_type, size, first_block, block_count })
}

/// A stored node is read back as it was: its entry passes every check of
/// its own and decodes to the node.
#[verifier::spinoff_prover]
#[verifier::rlimit(40)]
pub proof fn law_node_round_trip(n: NodeInfo, pb: u64)
    requires
        storable(n),
        vstd::utf8::valid_utf8(n.path),
        n.size <= blocks_bytes(n.block_count),
        n.file_type == FileType::Directory ==> n.size == 0 && n.block_count == 0,
        n.block_count != 0 ==> DATA_START <= n.first_block && n.first_block + n.block_count <= pb,
    ensures
        node_entry(n).len() == 128,
        !entry_corrupt(node_entry(n), pb),
        entry_node(node_entry(n)) == n,
{
    let b = entry_body(n);
    let e = node_entry(n);
    let l = n.path.len() as u16;
    assert(bytes64(n.size).len() == 8);
    assert(bytes64(n.first_block).len() == 8);
    assert(bytes64(n.block_count).len() == 8);
    assert(b.len() == 124);
    assert(e.subrange(0, 124) =~= b);
    assert(e[1] == type_code(n.file_type));
    assert(e[2] == (l & 0xff) as u8 && e[3] == (l >> 8u16) as u8);
    assert(((l & 0xff) as u8) + ((l >> 8u16) as u8) * 256 == l) by (bit_vector);
    assert(le16_at(e, 2) == n.path.len());
    assert(e.subrange(4, 12) =~= bytes64(n.size));
    lemma_le64_at(e, 4, n.size);
    assert(e.subrange(12, 20) =~= bytes64(n.first_block));
    lemma_le64_at(e, 12, n.first_block);
    assert(e.subrange(20, 28) =~= bytes64(n.block_count));
    lemma_le64_at(e, 20, n.block_count);
    assert(e.subrange(124, 128) =~= bytes32(crc32_spec(b)));
    lemma_le32_at(e, 124, crc32_spec(b));
    assert(e.subrange(28, 28 + n.path.len() as int) =~= n.path);
    assert(entry_node(e) =~= n);
}


/// An open file: the node slot, the position and the open flags.
pub struct OpenHandle {
    pub node: usize,
    pub offset: usize,
    pub flags: OpenFlags,
}

/// A mounted DunitFS: where it lives, its node table and open handles.
pub struct DunitFs {
    pub device: BlockDeviceInfo,
    pub partition_start: u64,
    pub partition_blocks: u64,
    pub nodes: Vec<Option<Node>>,
    pub handles: Vec<(FileHandle, OpenHandle)>,
    pub next_handle: FileHandle,
}

/// Whether the block runs of two nodes overlap.
pub open spec fn runs_overlap(a: NodeInfo, b: NodeInfo) -> bool {
    a.block_count != 0 && b.block_count != 0 && a.first_block < b.first_block + b.block_count
        && b.first_block < a.first_block + a.block_count
}

/// A node on its own is consistent with a partition of `pb` blocks.
pub open spec fn node_valid(n: NodeInfo, pb: u64) -> bool {
    &&& storable(n)
    &&& n.size <= blocks_bytes(n.block_count)
    &&& n.file_type == FileType::Directory ==> n.size == 0 && n.block_count == 0
    &&& n.block_count != 0 ==> DATA_START <= n.first_block && n.first_block + n.block_count <= pb
}

/// The node table of a mounted file system: 64 slots, every node valid,
/// no two runs overlapping.
pub open spec fn table_valid(nodes: Seq<Option<Node>>, pb: u64) -> bool {
    &&& nodes.len() == MAX_NODES
    &&& forall|i: int| 0 <= i < nodes.len() && (#[trigger] nodes[i]) is Some ==> node_valid(nodes[i]->Some_0@, pb)
    &&& forall|i: int, j: int| 0 <= i < nodes.len() && 0 <= j < nodes.len() && i != j && (#[trigger] nodes[i]) is Some
        && (#[trigger] nodes[j]) is Some ==> !runs_overlap(nodes[i]->Some_0@, nodes[j]->Some_0@)
}

/// Whether the runs of two valid nodes overlap.
pub fn ranges_overlap(left: &Node, right: &Node) -> (r: bool)
    requires
        left.first_block + left.block_count <= u64::MAX,
        right.first_block + right.block_count <= u64::MAX,
    ensures
        r == runs_overlap(left@, right@),
{
    left.block_count != 0 && right.block_count != 0 && left.first_block < right.first_block + right.block_count
        && right.first_block < left.first_block + left.block_count
}

/// The first 512 bytes of block `relative` of the partition from `start`
/// on the device named `name`.
pub open spec fn part_block<D: BlockIo>(dev: D, name: Seq<u8>, start: u64, relative: u64) -> Seq<u8> {
    dev.block_at(name, (start + relative) as u64).subrange(0, BLOCK_SIZE as int)
}

/// Whether block `relative` of the partition from `start` on device `name`
/// reads back whole: the device can read it and it holds one block.
pub open spec fn faithful_block<D: BlockIo>(dev: D, name: Seq<u8>, start: u64, relative: u64) -> bool {
    dev.readable(name, (start + relative) as u64) && dev.block_at(name, (start + relative) as u64).len() == BLOCK_SIZE
}

/// Whether the superblock and the node table of the partition read back
/// whole.
pub open spec fn faithful_volume<D: BlockIo>(dev: D, name: Seq<u8>, start: u64) -> bool {
    forall|rel: u64| 0 <= rel < DATA_START ==> #[trigger] faithful_block(dev, name, start, rel)
}

/// Reads block `relative` of the partition into `data`.
pub fn read_partition_block<D: BlockIo>(dev: &mut D, device: &BlockDeviceInfo, start: u64, blocks: u64, relative: u64, data: &mut Vec<u8>) -> (r: Result<(), DunitFsError>)
    requires
        old(data)@.len() == BLOCK_SIZE,
        start + blocks <= u64::MAX,
    ensures
        final(data)@.len() == BLOCK_SIZE,
        relative >= blocks ==> r == Err::<(), DunitFsError>(DunitFsError::Io),
        same_blocks(*final(dev), *old(dev)),
        r is Ok ==> relative < blocks && old(dev).block_at(device.name.spec_bytes(), (start + relative) as u64).len() >= BLOCK_SIZE
            && final(data)@ == part_block(*old(dev), device.name.spec_bytes(), start, relative),
        r is Err ==> r == Err::<(), DunitFsError>(DunitFsError::Io),
        relative < blocks && faithful_block(*old(dev), device.name.spec_bytes(), start, relative) ==> r is Ok,
        same_readable(*final(dev), *old(dev)),
{
    if relative >= blocks {
        return Err(DunitFsError::Io);
    }
    match dev.read_block(device.name, start + relative, data.as_mut_slice()) {
        Ok(n) => {
            if n != BLOCK_SIZE {
                return Err(DunitFsError::Io);
            }
            proof {
                assert(data@ =~= data@.subrange(0, BLOCK_SIZE as int));
            }
            Ok(())
        },
        Err(_) => Err(DunitFsError::Io),
    }
}

/// Writes `data` to block `relative` of the partition.
pub fn write_partition_block<D: BlockIo>(dev: &mut D, device: &BlockDeviceInfo, start: u64, blocks: u64, relative: u64, data: &Vec<u8>) -> (r: Result<(), DunitFsError>)
    requires
        start + blocks <= u64::MAX,
    ensures
        relative >= blocks ==> r == Err::<(), DunitFsError>(DunitFsError::Io) && same_blocks(*final(dev), *old(dev)),
        r is Err ==> r == Err::<(), DunitFsError>(DunitFsError::Io),
        forall|d: Seq<u8>, l: u64| !(d == device.name.spec_bytes() && l == start + relative)
            ==> #[trigger] final(dev).block_at(d, l) == old(dev).block_at(d, l),
        r is Ok ==> relative < blocks && data@.len() >= BLOCK_SIZE
            && final(dev).block_at(device.name.spec_bytes(), (start + relative) as u64).len() >= BLOCK_SIZE
            && part_block(*final(dev), device.name.spec_bytes(), start, relative) == data@.subrange(0, BLOCK_SIZE as int),
{
    if relative >= blocks {
        return Err(DunitFsError::Io);
    }
    match dev.write_block(device.name, start + relative, data.as_slice()) {
        Ok(n) => {
            if n != BLOCK_SIZE {
                return Err(DunitFsError::Io);
            }
            proof {
                let b = dev.block_at(device.name.spec_bytes(), (start + relative) as u64);
                assert(b.subrange(0, BLOCK_SIZE as int) =~= data@.subrange(0, BLOCK_SIZE as int));
            }
            Ok(())
        },
        Err(_) => Err(DunitFsError::Io),
    }
}

/// A zeroed block.
pub open spec fn zero_block() -> Seq<u8> {
    Seq::new(BLOCK_SIZE as nat, |i: int| 0u8)
}

/// Whether the partition from `start` on device `name` holds a freshly
/// formatted volume of `pb` blocks: the superblock, then a zeroed node table.
pub open spec fn formatted<D: BlockIo>(dev: D, name: Seq<u8>, start: u64, pb: u64) -> bool {
    &&& part_block(dev, name, start, 0) == superblock(pb)
    &&& forall|rel: u64| METADATA_START <= rel < DATA_START ==> #[trigger] part_block(dev, name, start, rel) == zero_block()
}

/// Formats a partition: clears the superblock and the node table, then
/// writes the superblock. Refused while a DunitFS is mounted.
pub fn format<D: BlockIo>(dev: &mut D, mounted: bool, device: BlockDeviceInfo, partition_start: u64, partition_blocks: u64) -> (r: Result<(), DunitFsError>)
    ensures
        mounted ==> r == Err::<(), DunitFsError>(DunitFsError::AlreadyMounted) && same_blocks(*final(dev), *old(dev)),
        !mounted ==> (geometry_error(device, partition_start, partition_blocks) matches Some(e) ==> r == Err::<(), DunitFsError>(e)
            && same_blocks(*final(dev), *old(dev))),
        r is Ok ==> formatted(*final(dev), device.name.spec_bytes(), partition_start, partition_blocks),
        forall|d: Seq<u8>, l: u64| !(d == device.name.spec_bytes() && partition_start <= l < partition_start + DATA_START)
            ==> #[trigger] final(dev).block_at(d, l) == old(dev).block_at(d, l),
{
    if mounted {
        return Err(DunitFsError::AlreadyMounted);
    }
    match validate_geometry(device, partition_start, partition_blocks) {
        Ok(()) => {},
        Err(e) => return Err(e),
    }
    let zero = zeroed(BLOCK_SIZE);
    match write_partition_block(dev, &device, partition_start, partition_blocks, 0, &zero) {
        Ok(()) => {},
        Err(e) => return Err(e),
    }
    let ghost name = device.name.spec_bytes();
    let mut relative = METADATA_START;
    while relative < DATA_START
        invariant
            !mounted,
            geometry_error(device, partition_start, partition_blocks) is None,
            METADATA_START <= relative <= DATA_START,
            partition_start + partition_blocks <= u64::MAX,
            relative <= partition_blocks,
            name == device.name.spec_bytes(),
            zero@ == zero_block(),
            forall|rel: u64| METADATA_START <= rel < relative ==> #[trigger] part_block(*dev, name, partition_start, rel) == zero_block(),
            forall|d: Seq<u8>, l: u64| !(d == name && partition_start <= l < partition_start + relative)
                ==> #[trigger] dev.block_at(d, l) == old(dev).block_at(d, l),
        decreases DATA_START - relative,
    {
        let ghost before = *dev;
        match write_partition_block(dev, &device, partition_start, partition_blocks, relative, &zero) {
            Ok(()) => {},
            Err(e) => return Err(e),
        }
        proof {
            assert(zero@.subrange(0, BLOCK_SIZE as int) =~= zero_block());
            assert forall|rel: u64| METADATA_START <= rel < relative + 1 implies #[trigger] part_block(*dev, name, partition_start, rel) == zero_block() by {
                if rel < relative {
                    assert(part_block(before, name, partition_start, rel) == zero_block());
                    assert(dev.block_at(name, (partition_start + rel) as u64) == before.block_at(name, (partition_start + rel) as u64));
                } else {
                    assert(rel == relative);
                    assert(part_block(*dev, name, partition_start, relative) == zero@.subrange(0, BLOCK_SIZE as int));
                }
            }
        }
        relative = relative + 1;
    }
    let sb = superblock_image(partition_blocks);
    let ghost before = *dev;
    let r = write_partition_block(dev, &device, partition_start, partition_blocks, 0, &sb);
    proof {
        law_superblock_round_trip(partition_blocks);
        if r is Ok {
            assert(sb@.subrange(0, BLOCK_SIZE as int) =~= superblock(partition_blocks));
            assert forall|rel: u64| METADATA_START <= rel < DATA_START implies #[trigger] part_block(*dev, name, partition_start, rel) == zero_block() by {
                assert(dev.block_at(name, (partition_start + rel) as u64) == before.block_at(name, (partition_start + rel) as u64));
                assert(part_block(before, name, partition_start, rel) == zero_block());
            }
            assert((partition_start + 0) as u64 == partition_start);
        }
    }
    r
}

/// What `load` answers for the partition from `start` of `pb` blocks on
/// `device`, given the blocks of `dev`: the geometry error; else a device
/// error, a superblock that fails the check, or a used node-table entry
/// that is refused; or a volume whose node slots are the entries on disk.
pub open spec fn load_result<D: BlockIo>(dev: D, device: BlockDeviceInfo, start: u64, pb: u64, r: Result<DunitFs, DunitFsError>) -> bool {
    let name = device.name.spec_bytes();
    &&& geometry_error(device, start, pb) matches Some(e) ==> r == Err::<DunitFs, DunitFsError>(e)
    &&& geometry_error(device, start, pb) is None ==> (r matches Err(e) ==>
        e == DunitFsError::Io || e == DunitFsError::InvalidSuperblock || e == DunitFsError::CorruptMetadata)
    &&& (r matches Err(e) && e == DunitFsError::InvalidSuperblock) ==> !superblock_ok(part_block(dev, name, start, 0), pb)
    &&& (r matches Err(e) && e == DunitFsError::CorruptMetadata) ==> disk_has_entries(dev, name, start)
    &&& r matches Ok(fs) ==> superblock_ok(part_block(dev, name, start, 0), pb)
        && forall|i: int| 0 <= i < MAX_NODES ==> slot_from_disk(#[trigger] fs.nodes@[i], meta_block(dev, name, start, i / 4), i % 4)
    &&& geometry_error(device, start, pb) is None && faithful_block(dev, name, start, 0) && !superblock_ok(part_block(dev, name, start, 0), pb)
        ==> r == Err::<DunitFs, DunitFsError>(DunitFsError::InvalidSuperblock)
    &&& geometry_error(device, start, pb) is None && faithful_volume(dev, name, start) && superblock_ok(part_block(dev, name, start, 0), pb)
        && !disk_has_entries(dev, name, start) ==> r is Ok
}

/// A freshly formatted volume loads empty: with the superblock and the
/// zeroed node table that `format` leaves on the device, `load` fails only
/// on the geometry or on a device error (and not at all where the device
/// reads those blocks back whole), and a volume it returns has every node
/// slot empty.
pub proof fn law_format_then_load<D: BlockIo>(dev: D, device: BlockDeviceInfo, start: u64, pb: u64, r: Result<DunitFs, DunitFsError>)
    requires
        formatted(dev, device.name.spec_bytes(), start, pb),
        load_result(dev, device, start, pb, r),
    ensures
        r matches Err(e) ==> geometry_error(device, start, pb) == Some(e) || e == DunitFsError::Io,
        r matches Ok(fs) ==> forall|i: int| 0 <= i < MAX_NODES ==> (#[trigger] fs.nodes@[i]) is None,
        geometry_error(device, start, pb) is None && faithful_volume(dev, device.name.spec_bytes(), start) ==> r is Ok,
{
    let name = device.name.spec_bytes();
    law_superblock_round_trip(pb);
    assert forall|mb: int, k: int| 0 <= mb < METADATA_BLOCKS && 0 <= k < 4 implies !#[trigger] entry_used(meta_block(dev, name, start, mb), k) by {
        let rel = (METADATA_START + mb) as u64;
        assert(part_block(dev, name, start, rel) == zero_block());
        assert(block_entry(zero_block(), k)[0] == zero_block()[k * 128]);
    }
    if r is Ok {
        let fs = r->Ok_0;
        assert forall|i: int| 0 <= i < MAX_NODES implies (#[trigger] fs.nodes@[i]) is None by {
            assert(slot_from_disk(fs.nodes@[i], meta_block(dev, name, start, i / 4), i % 4));
            assert(!entry_used(meta_block(dev, name, start, i / 4), i % 4));
        }
    }
}

/// A freshly formatted volume of `pb` blocks is refused under any other
/// size: loading it as `m` blocks answers the geometry error, a device
/// error, or `InvalidSuperblock` (that one where the device reads the
/// superblock back whole), and never returns a volume.
pub proof fn law_format_other_size<D: BlockIo>(dev: D, device: BlockDeviceInfo, start: u64, pb: u64, m: u64, r: Result<DunitFs, DunitFsError>)
    requires
        formatted(dev, device.name.spec_bytes(), start, pb),
        m != pb,
        load_result(dev, device, start, m, r),
    ensures
        r is Err,
        r matches Err(e) ==> geometry_error(device, start, m) == Some(e) || e == DunitFsError::Io || e == DunitFsError::InvalidSuperblock,
        geometry_error(device, start, m) is None && faithful_block(dev, device.name.spec_bytes(), start, 0)
            ==> r == Err::<DunitFs, DunitFsError>(DunitFsError::InvalidSuperblock),
{
    let name = device.name.spec_bytes();
    law_superblock_round_trip(pb);
    let d = part_block(dev, name, start, 0);
    assert(d == superblock(pb));
    assert(le64_at(d, 16) == pb);
    assert(!superblock_ok(d, m));
    assert forall|mb: int, k: int| 0 <= mb < METADATA_BLOCKS && 0 <= k < 4 implies !#[trigger] entry_used(meta_block(dev, name, start, mb), k) by {
        let rel = (METADATA_START + mb) as u64;
        assert(part_block(dev, name, start, rel) == zero_block());
        assert(block_entry(zero_block(), k)[0] == zero_block()[k * 128]);
    }
}

/// Whether slot `o` holds a node stored under `c`.
pub open spec fn holds_path(o: Option<Node>, c: Seq<u8>) -> bool {
    match o {
        Some(m) => m.path@ == c,
        None => false,
    }
}

impl DunitFs {
    /// Position of the node stored under the cleaned `path`.
    pub fn node_index(&self, path: &[u8]) -> (r: Option<usize>)
        ensures
            r matches Some(i) ==> i < self.nodes@.len() && holds_path(self.nodes@[i as int], clean(path@))
                && forall|j: int| 0 <= j < i ==> !holds_path(#[trigger] self.nodes@[j], clean(path@)),
            r is None ==> forall|j: int| 0 <= j < self.nodes@.len() ==> !holds_path(#[trigger] self.nodes@[j], clean(path@)),
    {
        let c = clean_path(path);
        let mut i: usize = 0;
        while i < self.nodes.len()
            invariant
                i <= self.nodes@.len(),
                c@ == clean(path@),
                forall|j: int| 0 <= j < i ==> !holds_path(#[trigger] self.nodes@[j], clean(path@)),
            decreases self.nodes.len() - i,
        {
            match &self.nodes[i] {
                Some(n) => {
                    if bytes_eq(n.path.as_slice(), c.as_slice()) {
                        return Some(i);
                    }
                },
                None => {},
            }
            i = i + 1;
        }
        None
    }

    /// The first free slot of the node table.
    pub fn free_node_index(&self) -> (r: Option<usize>)
        ensures
            r matches Some(i) ==> i < self.nodes@.len() && self.nodes@[i as int] is None
                && forall|j: int| 0 <= j < i ==> self.nodes@[j] is Some,
            r is None ==> forall|j: int| 0 <= j < self.nodes@.len() ==> self.nodes@[j] is Some,
    {
        let mut i: usize = 0;
        while i < self.nodes.len()
            invariant
                i <= self.nodes@.len(),
                forall|j: int| 0 <= j < i ==> self.nodes@[j] is Some,
            decreases self.nodes.len() - i,
        {
            if self.nodes[i].is_none() {
                return Some(i);
            }
            i = i + 1;
        }
        None
    }
}


proof fn lemma_entry_valid(e: Seq<u8>, pb: u64)
    requires
        e.len() == 128,
        !entry_corrupt(e, pb),
    ensures
        node_valid(entry_node(e), pb),
{
    let n = entry_node(e);
    assert(n.path.len() == le16_at(e, 2));
}

fn empty_table() -> (r: Vec<Option<Node>>)
    ensures
        r@.len() == MAX_NODES,
        forall|i: int| 0 <= i < r@.len() ==> (#[trigger] r@[i]) is None,
{
    let mut v: Vec<Option<Node>> = Vec::new();
    let mut i: usize = 0;
    while i < MAX_NODES
        invariant
            i <= MAX_NODES,
            v@.len() == i,
            forall|k: int| 0 <= k < i ==> (#[trigger] v@[k]) is None,
        decreases MAX_NODES - i,
    {
        v.push(None);
        i = i + 1;
    }
    v
}

/// Metadata block `mb` of the partition from `start` on device `name`.
pub open spec fn meta_block<D: BlockIo>(dev: D, name: Seq<u8>, start: u64, mb: int) -> Seq<u8> {
    part_block(dev, name, start, (METADATA_START + mb) as u64)
}

/// Whether node slot `o` holds what entry `k` of metadata block `b` says:
/// the decoded node of a used entry, nothing for an unused one.
pub open spec fn slot_from_disk(o: Option<Node>, b: Seq<u8>, k: int) -> bool {
    if entry_used(b, k) { o is Some && o->Some_0@ == entry_node(block_entry(b, k)) } else { o is None }
}

/// Whether some entry of the node table on disk is in use.
pub open spec fn disk_has_entries<D: BlockIo>(dev: D, name: Seq<u8>, start: u64) -> bool {
    exists|mb: int, k: int| 0 <= mb < METADATA_BLOCKS && 0 <= k < 4 && #[trigger] entry_used(meta_block(dev, name, start, mb), k)
}

/// Entry `slot` of a metadata block.
pub open spec fn block_entry(data: Seq<u8>, slot: int) -> Seq<u8> {
    data.subrange(slot * 128, slot * 128 + 128)
}

/// Whether entry `slot` of a metadata block is in use.
pub open spec fn entry_used(data: Seq<u8>, slot: int) -> bool {
    block_entry(data, slot)[0] != 0
}

/// Whether loading the used entry `slot` of a metadata block into `nodes`
/// is refused: the entry is corrupt, or its path is already held by a node
/// of `nodes` or by a used entry before it in the block.
pub open spec fn slot_refused(nodes: Seq<Option<Node>>, data: Seq<u8>, pb: u64, slot: int) -> bool {
    let e = block_entry(data, slot);
    let c = clean(entry_node(e).path);
    &&& entry_used(data, slot)
    &&& {
        ||| entry_corrupt(e, pb)
        ||| exists|j: int| 0 <= j < nodes.len() && holds_path(#[trigger] nodes[j], c)
        ||| exists|k: int| 0 <= k < slot && entry_used(data, k) && #[trigger] entry_node(block_entry(data, k)).path == c
    }
}

impl DunitFs {
    /// Loads the four entries of metadata block `mb` (read into `data`) into
    /// slots `4 * mb ..`: each used entry is decoded and checked, and one
    /// whose path is already taken is refused.
    pub fn load_block_entries(&mut self, data: &[u8], mb: usize) -> (r: Result<(), DunitFsError>)
        requires
            data@.len() == BLOCK_SIZE,
            mb < METADATA_BLOCKS,
            old(self).nodes@.len() == MAX_NODES,
            forall|k: int| 0 <= k < 4 ==> #[trigger] old(self).nodes@[mb * 4 + k] is None,
            forall|i: int| 0 <= i < old(self).nodes@.len() && (#[trigger] old(self).nodes@[i]) is Some
                ==> node_valid(old(self).nodes@[i]->Some_0@, old(self).partition_blocks),
        ensures
            *final(self) == (DunitFs { nodes: final(self).nodes, ..*old(self) }),
            final(self).nodes@.len() == MAX_NODES,
            forall|i: int| 0 <= i < final(self).nodes@.len() && (#[trigger] final(self).nodes@[i]) is Some
                ==> node_valid(final(self).nodes@[i]->Some_0@, old(self).partition_blocks),
            r is Ok <==> forall|k: int| 0 <= k < 4 ==> !#[trigger] slot_refused(old(self).nodes@, data@, old(self).partition_blocks, k),
            r is Err ==> r == Err::<(), DunitFsError>(DunitFsError::CorruptMetadata),
            r is Ok ==> forall|i: int| 0 <= i < MAX_NODES && !(mb * 4 <= i < mb * 4 + 4) ==> #[trigger] final(self).nodes@[i] == old(self).nodes@[i],
            r is Ok ==> forall|k: int| 0 <= k < 4 ==> {
                let o = #[trigger] final(self).nodes@[mb * 4 + k];
                &&& !entry_used(data@, k) ==> o is None
                &&& entry_used(data@, k) ==> o is Some && o->Some_0@ == entry_node(block_entry(data@, k))
            },
    {
        let pb = self.partition_blocks;
        let ghost n0 = self.nodes@;
        let mut slot: usize = 0;
        while slot < 4
            invariant
                slot <= 4,
                mb < METADATA_BLOCKS,
                data@.len() == BLOCK_SIZE,
                pb == self.partition_blocks,
                n0 == old(self).nodes@,
                n0.len() == MAX_NODES,
                *self == (DunitFs { nodes: self.nodes, ..*old(self) }),
                self.nodes@.len() == MAX_NODES,
                forall|i: int| 0 <= i < self.nodes@.len() && (#[trigger] self.nodes@[i]) is Some ==> node_valid(self.nodes@[i]->Some_0@, pb),
                forall|k: int| 0 <= k < 4 ==> #[trigger] n0[mb * 4 + k] is None,
                forall|k: int| 0 <= k < slot ==> !#[trigger] slot_refused(n0, data@, pb, k),
                forall|i: int| 0 <= i < MAX_NODES && !(mb * 4 <= i < mb * 4 + slot) ==> #[trigger] self.nodes@[i] == n0[i],
                forall|k: int| 0 <= k < slot ==> {
                    let o = #[trigger] self.nodes@[mb * 4 + k];
                    &&& !entry_used(data@, k) ==> o is None
                    &&& entry_used(data@, k) ==> o is Some && o->Some_0@ == entry_node(block_entry(data@, k))
                },
            decreases 4 - slot,
        {
            let index = mb * 4 + slot;
            let entry = copy_range(data, slot * 128, slot * 128 + 128);
            assert(entry@ == block_entry(data@, slot as int));
            if entry[0] != 0 {
                let node = match decode_entry(entry.as_slice(), pb) {
                    Ok(n) => n,
                    Err(e) => {
                        proof {
                            assert(slot_refused(n0, data@, pb, slot as int));
                        }
                        return Err(e);
                    },
                };
                proof {
                    lemma_entry_valid(entry@, pb);
                }
                let ghost c = clean(node.path@);
                let ghost cur = self.nodes@;
                proof {
                    if exists|j: int| 0 <= j < cur.len() && holds_path(#[trigger] cur[j], c) {
                        let j = choose|j: int| 0 <= j < cur.len() && holds_path(#[trigger] cur[j], c);
                        if mb * 4 <= j < mb * 4 + slot {
                            let k = j - mb * 4;
                            assert(cur[mb * 4 + k] == cur[j]);
                            assert(entry_used(data@, k));
                        } else {
                            assert(cur[j] == n0[j]);
                        }
                        assert(slot_refused(n0, data@, pb, slot as int));
                    } else {
                        assert forall|j: int| 0 <= j < n0.len() implies !holds_path(#[trigger] n0[j], c) by {
                            if mb * 4 <= j < mb * 4 + 4 {
                                let k = j - mb * 4;
                                assert(n0[mb * 4 + k] is None);
                            } else {
                                assert(cur[j] == n0[j]);
                            }
                        }
                        assert forall|k: int| 0 <= k < slot && entry_used(data@, k) implies #[trigger] entry_node(block_entry(data@, k)).path != c by {
                            assert(!holds_path(cur[mb * 4 + k], c));
                        }
                        assert(!slot_refused(n0, data@, pb, slot as int));
                    }
                }
                if self.node_index(node.path.as_slice()).is_some() {
                    return Err(DunitFsError::CorruptMetadata);
                }
                let ghost nv = node@;
                self.nodes.set(index, Some(node));
                proof {
                    assert forall|i: int| 0 <= i < self.nodes@.len() && (#[trigger] self.nodes@[i]) is Some implies node_valid(self.nodes@[i]->Some_0@, pb) by {
                        if i == index {
                            assert(self.nodes@[i]->Some_0@ == nv);
                        } else {
                            assert(self.nodes@[i] == cur[i]);
                        }
                    }
                    assert forall|k: int| 0 <= k < slot + 1 implies {
                        let o = #[trigger] self.nodes@[mb * 4 + k];
                        &&& !entry_used(data@, k) ==> o is None
                        &&& entry_used(data@, k) ==> o is Some && o->Some_0@ == entry_node(block_entry(data@, k))
                    } by {
                        if k < slot {
                            assert(self.nodes@[mb * 4 + k] == cur[mb * 4 + k]);
                        }
                    }
                }
            } else {
                proof {
                    assert(!slot_refused(n0, data@, pb, slot as int));
                    assert(self.nodes@[index as int] == n0[index as int]);
                }
            }
            slot = slot + 1;
        }
        Ok(())
    }

    /// Reads the node table: every used entry is decoded and checked, a
    /// path stored twice is refused, and so are overlapping block runs.
    pub fn load_nodes<D: BlockIo>(&mut self, dev: &mut D) -> (r: Result<(), DunitFsError>)
        requires
            old(self).nodes@.len() == MAX_NODES,
            forall|i: int| 0 <= i < old(self).nodes@.len() ==> (#[trigger] old(self).nodes@[i]) is None,
            old(self).partition_start + old(self).partition_blocks <= u64::MAX,
        ensures
            final(self).partition_blocks == old(self).partition_blocks,
            final(self).partition_start == old(self).partition_start,
            final(self).device == old(self).device,
            final(self).handles@ == old(self).handles@,
            final(self).next_handle == old(self).next_handle,
            r is Ok ==> table_valid(final(self).nodes@, final(self).partition_blocks),
            old(self).partition_blocks <= METADATA_START ==> r == Err::<(), DunitFsError>(DunitFsError::Io),
            same_blocks(*final(dev), *old(dev)),
            r is Ok ==> forall|i: int| 0 <= i < MAX_NODES ==> slot_from_disk(#[trigger] final(self).nodes@[i],
                meta_block(*old(dev), old(self).device.name.spec_bytes(), old(self).partition_start, i / 4), i % 4),
            r is Err ==> r == Err::<(), DunitFsError>(DunitFsError::Io) || r == Err::<(), DunitFsError>(DunitFsError::CorruptMetadata),
            r == Err::<(), DunitFsError>(DunitFsError::CorruptMetadata) ==>
                disk_has_entries(*old(dev), old(self).device.name.spec_bytes(), old(self).partition_start),
            old(self).partition_blocks >= DATA_START && faithful_volume(*old(dev), old(self).device.name.spec_bytes(), old(self).partition_start)
                && !disk_has_entries(*old(dev), old(self).device.name.spec_bytes(), old(self).partition_start) ==> r is Ok,
    {
        let ghost name = self.device.name.spec_bytes();
        let ghost start = self.partition_start;
        let pb = self.partition_blocks;
        let mut data = zeroed(BLOCK_SIZE);
        let mut mb: u64 = 0;
        while mb < METADATA_BLOCKS
            invariant
                mb <= METADATA_BLOCKS,
                data@.len() == BLOCK_SIZE,
                pb == self.partition_blocks,
                self.partition_blocks == old(self).partition_blocks,
                self.partition_start == old(self).partition_start,
                self.device == old(self).device,
                self.handles@ == old(self).handles@,
                self.next_handle == old(self).next_handle,
                self.partition_start + self.partition_blocks <= u64::MAX,
                self.nodes@.len() == MAX_NODES,
                forall|i: int| 0 <= i < self.nodes@.len() && (#[trigger] self.nodes@[i]) is Some ==> node_valid(self.nodes@[i]->Some_0@, pb),
                forall|i: int| mb * 4 <= i < MAX_NODES ==> (#[trigger] self.nodes@[i]) is None,
                old(self).partition_blocks <= METADATA_START ==> mb == 0,
                name == self.device.name.spec_bytes(),
                start == self.partition_start,
                same_blocks(*dev, *old(dev)),
                same_readable(*dev, *old(dev)),
                forall|i: int| 0 <= i < mb * 4 ==> slot_from_disk(#[trigger] self.nodes@[i], meta_block(*old(dev), name, start, i / 4), i % 4),
            decreases METADATA_BLOCKS - mb,
        {
            proof {
                let l = (start + (METADATA_START + mb) as u64) as u64;
                if faithful_volume(*old(dev), name, start) {
                    assert(faithful_block(*old(dev), name, start, (METADATA_START + mb) as u64));
                    assert(dev.readable(name, l) == old(dev).readable(name, l));
                    assert(dev.block_at(name, l) == old(dev).block_at(name, l));
                }
            }
            match read_partition_block(dev, &self.device, self.partition_start, self.partition_blocks, METADATA_START + mb, &mut data) {
                Ok(()) => {},
                Err(e) => return Err(e),
            }
            proof {
                assert forall|k: int| 0 <= k < 4 implies #[trigger] self.nodes@[mb as int * 4 + k] is None by {}
                assert(data@ == meta_block(*old(dev), name, start, mb as int));
            }
            let ghost n0 = self.nodes@;
            match self.load_block_entries(data.as_slice(), mb as usize) {
                Ok(()) => {},
                Err(e) => {
                    proof {
                        let k = choose|k: int| 0 <= k < 4 && slot_refused(n0, data@, pb, k);
                        assert(entry_used(meta_block(*old(dev), name, start, mb as int), k));
                    }
                    return Err(e);
                },
            }
            proof {
                assert forall|i: int| 0 <= i < (mb + 1) * 4 implies slot_from_disk(#[trigger] self.nodes@[i], meta_block(*old(dev), name, start, i / 4), i % 4) by {
                    if i < mb * 4 {
                        assert(self.nodes@[i] == n0[i]);
                    } else {
                        let k = i - mb * 4;
                        assert(i / 4 == mb && i % 4 == k);
                        assert(self.nodes@[mb * 4 + k] == self.nodes@[i]);
                    }
                }
            }
            mb = mb + 1;
        }
        let mut index: usize = 0;
        while index < MAX_NODES
            invariant
                index <= MAX_NODES,
                pb == self.partition_blocks,
                self.partition_blocks == old(self).partition_blocks,
                self.partition_start == old(self).partition_start,
                self.device == old(self).device,
                self.handles@ == old(self).handles@,
                self.next_handle == old(self).next_handle,
                self.nodes@.len() == MAX_NODES,
                same_blocks(*dev, *old(dev)),
                name == self.device.name.spec_bytes(),
                start == self.partition_start,
                forall|i: int| 0 <= i < MAX_NODES ==> slot_from_disk(#[trigger] self.nodes@[i], meta_block(*old(dev), name, start, i / 4), i % 4),
                forall|i: int| 0 <= i < self.nodes@.len() && (#[trigger] self.nodes@[i]) is Some ==> node_valid(self.nodes@[i]->Some_0@, pb),
                forall|i: int, j: int| 0 <= j < i < index && (#[trigger] self.nodes@[i]) is Some && (#[trigger] self.nodes@[j]) is Some
                    ==> !runs_overlap(self.nodes@[i]->Some_0@, self.nodes@[j]->Some_0@),
            decreases MAX_NODES - index,
        {
            match &self.nodes[index] {
                Some(node) => {
                    let mut other: usize = 0;
                    while other < index
                        invariant
                            other <= index < MAX_NODES,
                            pb == self.partition_blocks,
                            self.partition_blocks == old(self).partition_blocks,
                            self.partition_start == old(self).partition_start,
                            self.device == old(self).device,
                            self.handles@ == old(self).handles@,
                            self.next_handle == old(self).next_handle,
                            self.nodes@.len() == MAX_NODES,
                            self.nodes@[index as int] == Some(*node),
                            same_blocks(*dev, *old(dev)),
                            name == self.device.name.spec_bytes(),
                            start == self.partition_start,
                            forall|i: int| 0 <= i < MAX_NODES ==> slot_from_disk(#[trigger] self.nodes@[i], meta_block(*old(dev), name, start, i / 4), i % 4),
                            forall|i: int| 0 <= i < self.nodes@.len() && (#[trigger] self.nodes@[i]) is Some ==> node_valid(self.nodes@[i]->Some_0@, pb),
                            forall|j: int| 0 <= j < other && (#[trigger] self.nodes@[j]) is Some ==> !runs_overlap(node@, self.nodes@[j]->Some_0@),
                        decreases index - other,
                    {
                        match &self.nodes[other] {
                            Some(o) => {
                                assert(node_valid(node@, pb));
                                assert(node_valid(o@, pb));
                                if ranges_overlap(node, o) {
                                    proof {
                                        let ii = index as int;
                                        assert(slot_from_disk(self.nodes@[ii], meta_block(*old(dev), name, start, ii / 4), ii % 4));
                                        assert(entry_used(meta_block(*old(dev), name, start, ii / 4), ii % 4));
                                        assert(0 <= ii / 4 < METADATA_BLOCKS && 0 <= ii % 4 < 4);
                                    }
                                    return Err(DunitFsError::CorruptMetadata);
                                }
                            },
                            None => {},
                        }
                        other = other + 1;
                    }
                },
                None => {},
            }
            index = index + 1;
        }
        proof {
            let ns = self.nodes@;
            assert forall|i: int, j: int| 0 <= i < ns.len() && 0 <= j < ns.len() && i != j && (#[trigger] ns[i]) is Some
                && (#[trigger] ns[j]) is Some implies !runs_overlap(ns[i]->Some_0@, ns[j]->Some_0@) by {
                if j < i {
                } else {
                    assert(!runs_overlap(ns[j]->Some_0@, ns[i]->Some_0@));
                }
            }
        }
        Ok(())
    }

    /// Mounts the DunitFS of a partition: checks the geometry and the
    /// superblock, then reads the node table.
    pub fn load<D: BlockIo>(dev: &mut D, device: BlockDeviceInfo, partition_start: u64, partition_blocks: u64) -> (r: Result<DunitFs, DunitFsError>)
        ensures
            geometry_error(device, partition_start, partition_blocks) matches Some(e) ==> r == Err::<DunitFs, DunitFsError>(e),
            same_blocks(*final(dev), *old(dev)),
            load_result(*old(dev), device, partition_start, partition_blocks, r),
            r matches Ok(fs) ==> {
                &&& table_valid(fs.nodes@, partition_blocks)
                &&& fs.partition_start == partition_start
                &&& fs.partition_blocks == partition_blocks
                &&& fs.handles@.len() == 0
                &&& fs.next_handle == 1
            },
    {
        match validate_geometry(device, partition_start, partition_blocks) {
            Ok(()) => {},
            Err(e) => return Err(e),
        }
        let mut data = zeroed(BLOCK_SIZE);
        match read_partition_block(dev, &device, partition_start, partition_blocks, 0, &mut data) {
            Ok(()) => {},
            Err(e) => return Err(e),
        }
        if !check_superblock(data.as_slice(), partition_blocks) {
            return Err(DunitFsError::InvalidSuperblock);
        }
        let ghost d0 = *dev;
        let mut fs = DunitFs {
            device,
            partition_start,
            partition_blocks,
            nodes: empty_table(),
            handles: Vec::new(),
            next_handle: 1,
        };
        match fs.load_nodes(dev) {
            Ok(()) => {},
            Err(e) => {
                proof {
                    let name = device.name.spec_bytes();
                    if faithful_volume(*old(dev), name, partition_start) {
                        assert forall|rel: u64| 0 <= rel < DATA_START implies #[trigger] faithful_block(d0, name, partition_start, rel) by {
                            assert(faithful_block(*old(dev), name, partition_start, rel));
                            let l = (partition_start + rel) as u64;
                            assert(d0.readable(name, l) == old(dev).readable(name, l));
                            assert(d0.block_at(name, l) == old(dev).block_at(name, l));
                        }
                        if !disk_has_entries(*old(dev), name, partition_start) {
                            assert forall|mb: int, k: int| 0 <= mb < METADATA_BLOCKS && 0 <= k < 4 implies !#[trigger] entry_used(meta_block(d0, name, partition_start, mb), k) by {
                                let l = (partition_start + (METADATA_START + mb) as u64) as u64;
                                assert(d0.block_at(name, l) == old(dev).block_at(name, l));
                                assert(meta_block(d0, name, partition_start, mb) == meta_block(*old(dev), name, partition_start, mb));
                            }
                        }
                    }
                    if e == DunitFsError::CorruptMetadata {
                        let (mb, k) = choose|mb: int, k: int| 0 <= mb < METADATA_BLOCKS && 0 <= k < 4
                            && #[trigger] entry_used(meta_block(d0, name, partition_start, mb), k);
                        let l = (partition_start + (METADATA_START + mb) as u64) as u64;
                        assert(d0.block_at(name, l) == old(dev).block_at(name, l));
                        assert(meta_block(d0, name, partition_start, mb) == meta_block(*old(dev), name, partition_start, mb));
                        assert(entry_used(meta_block(*old(dev), name, partition_start, mb), k));
                    }
                }
                return Err(e);
            },
        }
        Ok(fs)
    }
}

/// Loads the volume of a partition for mounting at `path`: refused while a
/// volume is mounted; only the root (`/`) can be a mount point, so for any
/// other path the loaded volume is dropped with `Vfs(Unsupported)`. The
/// caller mounts a returned volume as the root file system.
pub fn mount_global<D: BlockIo>(dev: &mut D, path: &str, mounted: bool, device: BlockDeviceInfo, partition_start: u64, partition_blocks: u64) -> (r: Result<DunitFs, DunitFsError>)
    ensures
        mounted ==> r == Err::<DunitFs, DunitFsError>(DunitFsError::AlreadyMounted),
        !mounted ==> (geometry_error(device, partition_start, partition_blocks) matches Some(e) ==> r == Err::<DunitFs, DunitFsError>(e)),
        !mounted && path@ != "/"@ ==> r is Err,
        r matches Ok(fs) ==> path@ == "/"@ && table_valid(fs.nodes@, partition_blocks) && fs.partition_start == partition_start
            && fs.partition_blocks == partition_blocks,
        r is Ok ==> load_result(*old(dev), device, partition_start, partition_blocks, r),
        same_blocks(*final(dev), *old(dev)),
{
    if mounted {
        return Err(DunitFsError::AlreadyMounted);
    }
    let fs = match DunitFs::load(dev, device, partition_start, partition_blocks) {
        Ok(fs) => fs,
        Err(e) => return Err(e),
    };
    if crate::text::str_eq(path, "/") {
        Ok(fs)
    } else {
        Err(DunitFsError::Vfs(VfsError::Unsupported))
    }
}

/// One past the last block of node `n`'s run, saturating.
pub open spec fn run_end(n: NodeInfo) -> int {
    if n.first_block + n.block_count > u64::MAX { u64::MAX as int } else { n.first_block + n.block_count }
}

/// Whether slot `o` holds a node whose run meets `[start, end)`.
pub open spec fn run_meets(o: Option<Node>, start: int, end: int) -> bool {
    o matches Some(n) && n.block_count != 0 && start < run_end(n@) && n.first_block < end
}

/// Whether `[start, start + blocks)` lies in the data area of a partition
/// of `pb` blocks and meets no run of a node other than slot `except`.
pub open spec fn range_is_free(nodes: Seq<Option<Node>>, pb: u64, start: int, blocks: int, except: int) -> bool {
    &&& start + blocks <= u64::MAX
    &&& DATA_START <= start
    &&& start + blocks <= pb
    &&& forall|i: int| 0 <= i < nodes.len() && i != except ==> !#[trigger] run_meets(nodes[i], start, start + blocks)
}

impl DunitFs {
    /// Whether `blocks` blocks from `start` are free for slot `except`.
    pub fn range_free(&self, start: u64, blocks: u64, except: usize) -> (r: bool)
        ensures
            r == range_is_free(self.nodes@, self.partition_blocks, start as int, blocks as int, except as int),
    {
        if start > u64::MAX - blocks {
            return false;
        }
        let end = start + blocks;
        if start < DATA_START || end > self.partition_blocks {
            return false;
        }
        let mut i: usize = 0;
        while i < self.nodes.len()
            invariant
                i <= self.nodes@.len(),
                end == start + blocks,
                forall|j: int| 0 <= j < i && j != except ==> !#[trigger] run_meets(self.nodes@[j], start as int, end as int),
            decreases self.nodes@.len() - i,
        {
            if i != except {
                match &self.nodes[i] {
                    Some(node) => {
                        let node_end = node.first_block.saturating_add(node.block_count);
                        if node.block_count != 0 && start < node_end && node.first_block < end {
                            proof {
                                assert(run_meets(self.nodes@[i as int], start as int, end as int));
                            }
                            return false;
                        }
                    },
                    None => {},
                }
            }
            i = i + 1;
        }
        true
    }

    /// The first start from `DATA_START` on where `blocks` blocks are free
    /// for slot `except`; `None` when there is none before the end of the
    /// partition.
    pub fn allocate_range(&self, blocks: u64, except: usize) -> (r: Option<u64>)
        requires
            self.partition_blocks < u64::MAX,
        ensures
            r matches Some(c) ==> range_is_free(self.nodes@, self.partition_blocks, c as int, blocks as int, except as int)
                && forall|c2: int| DATA_START <= c2 < c ==> !range_is_free(self.nodes@, self.partition_blocks, c2, blocks as int, except as int),
            r is None ==> forall|c2: int| DATA_START <= c2 ==> !range_is_free(self.nodes@, self.partition_blocks, c2, blocks as int, except as int),
    {
        let pb = self.partition_blocks;
        let mut candidate: u64 = DATA_START;
        while candidate.saturating_add(blocks) <= pb
            invariant
                pb == self.partition_blocks,
                pb < u64::MAX,
                DATA_START <= candidate,
                forall|c2: int| DATA_START <= c2 < candidate ==> !range_is_free(self.nodes@, pb, c2, blocks as int, except as int),
            decreases u64::MAX - candidate,
        {
            if self.range_free(candidate, blocks, except) {
                return Some(candidate);
            }
            let mut next = candidate + 1;
            let mut i: usize = 0;
            while i < self.nodes.len()
                invariant
                    i <= self.nodes@.len(),
                    pb == self.partition_blocks,
                    DATA_START <= candidate < next,
                    forall|c2: int| DATA_START <= c2 < candidate ==> !range_is_free(self.nodes@, pb, c2, blocks as int, except as int),
                    !range_is_free(self.nodes@, pb, candidate as int, blocks as int, except as int),
                    forall|c2: int| candidate < c2 < next ==> !range_is_free(self.nodes@, pb, c2, blocks as int, except as int),
                decreases self.nodes@.len() - i,
            {
                if i != except {
                    match &self.nodes[i] {
                        Some(node) => {
                            let node_end = node.first_block.saturating_add(node.block_count);
                            let candidate_end = candidate.saturating_add(blocks);
                            if node.block_count != 0 && candidate < node_end && node.first_block < candidate_end {
                                proof {
                                    assert forall|c2: int| candidate < c2 < node_end implies !range_is_free(self.nodes@, pb, c2, blocks as int, except as int) by {
                                        if c2 + blocks <= u64::MAX {
                                            assert(run_meets(self.nodes@[i as int], c2, c2 + blocks));
                                        }
                                    }
                                }
                                if node_end > next {
                                    next = node_end;
                                }
                            }
                        },
                        None => {},
                    }
                }
                i = i + 1;
            }
            candidate = next;
        }
        proof {
            assert forall|c2: int| DATA_START <= c2 implies !range_is_free(self.nodes@, pb, c2, blocks as int, except as int) by {
                if c2 >= candidate {
                    assert(candidate as int + blocks > pb);
                }
            }
        }
        None
    }
}

/// Metadata block `b` with entry `slot` replaced by `entry`.
pub open spec fn with_entry(b: Seq<u8>, slot: int, entry: Seq<u8>) -> Seq<u8> {
    b.subrange(0, slot * 128) + entry + b.subrange(slot * 128 + 128, BLOCK_SIZE as int)
}

/// The table entry of slot `o`: the encoded node, or zeros when empty.
pub open spec fn slot_entry(o: Option<Node>) -> Seq<u8> {
    match o {
        Some(n) => node_entry(n@),
        None => Seq::new(128, |i: int| 0u8),
    }
}

/// Whether the path of a node in slot `o` fits an entry.
pub open spec fn slot_storable(o: Option<Node>) -> bool {
    o matches Some(n) ==> 1 <= n.path@.len() <= PATH_SIZE
}

impl DunitFs {
    /// Writes node slot `index` back to its entry in the node table on
    /// disk: its metadata block is read, the entry replaced, the block
    /// written. A device node cannot be stored; device failures are I/O
    /// errors.
    pub fn persist_node<D: BlockIo>(&self, dev: &mut D, index: usize) -> (r: Result<(), VfsError>)
        requires
            index < self.nodes@.len(),
            index < MAX_NODES,
            slot_storable(self.nodes@[index as int]),
            self.partition_start + self.partition_blocks <= u64::MAX,
        ensures
            r is Err ==> r == Err::<(), VfsError>(VfsError::IoError) || r == Err::<(), VfsError>(VfsError::Unsupported),
            r == Err::<(), VfsError>(VfsError::Unsupported) ==> (self.nodes@[index as int] matches Some(n) && n.file_type == FileType::Device),
            (self.nodes@[index as int] matches Some(n) && n.file_type == FileType::Device) ==> r is Err,
            forall|d: Seq<u8>, l: u64| !(d == self.device.name.spec_bytes() && l == self.partition_start + METADATA_START + index / 4)
                ==> #[trigger] final(dev).block_at(d, l) == old(dev).block_at(d, l),
            r is Ok ==> part_block(*final(dev), self.device.name.spec_bytes(), self.partition_start, (METADATA_START + index / 4) as u64)
                == with_entry(part_block(*old(dev), self.device.name.spec_bytes(), self.partition_start, (METADATA_START + index / 4) as u64),
                    (index % 4) as int, slot_entry(self.nodes@[index as int])),
    {
        let relative = METADATA_START + (index / 4) as u64;
        let slot = index % 4;
        let mut block = zeroed(BLOCK_SIZE);
        match read_partition_block(dev, &self.device, self.partition_start, self.partition_blocks, relative, &mut block) {
            Ok(()) => {},
            Err(_) => return Err(VfsError::IoError),
        }
        let ghost b0 = block@;
        let entry: Vec<u8> = match &self.nodes[index] {
            Some(node) => {
                match node.file_type {
                    FileType::Device => return Err(VfsError::Unsupported),
                    _ => {},
                }
                encode_node(node)
            },
            None => zeroed(128),
        };
        let mut out: Vec<u8> = Vec::new();
        let mut k: usize = 0;
        while k < BLOCK_SIZE
            invariant
                k <= BLOCK_SIZE,
                block@ == b0,
                b0.len() == BLOCK_SIZE,
                entry@.len() == 128,
                slot < 4,
                out@.len() == k,
                forall|j: int| 0 <= j < k ==> out@[j] == (if slot * 128 <= j < slot * 128 + 128 { entry@[j - slot * 128] } else { b0[j] }),
            decreases BLOCK_SIZE - k,
        {
            let byte = if slot * 128 <= k && k < slot * 128 + 128 { entry[k - slot * 128] } else { block[k] };
            out.push(byte);
            k = k + 1;
        }
        proof {
            assert(out@ =~= with_entry(b0, slot as int, entry@));
            match self.nodes@[index as int] {
                Some(n) => {},
                None => {
                    assert(entry@ =~= slot_entry(self.nodes@[index as int]));
                },
            }
        }
        match write_partition_block(dev, &self.device, self.partition_start, self.partition_blocks, relative, &out) {
            Ok(()) => {
                proof {
                    assert(out@.subrange(0, BLOCK_SIZE as int) =~= out@);
                }
                Ok(())
            },
            Err(_) => Err(VfsError::IoError),
        }
    }
}

/// Whether the directory holding `p` exists in the node table: a path
/// without a slash lies in the root; otherwise the first node stored under
/// the part before the last slash must be a directory.
pub open spec fn dunit_parent_exists(nodes: Seq<Option<Node>>, p: Seq<u8>) -> bool {
    let k = last_slash(p);
    if k < 0 {
        true
    } else {
        let c = clean(p.subrange(0, k));
        exists|i: int| 0 <= i < nodes.len() && holds_path(#[trigger] nodes[i], c)
            && (forall|j: int| 0 <= j < i ==> !holds_path(nodes[j], c)) && nodes[i]->Some_0.file_type == FileType::Directory
    }
}

impl DunitFs {
    /// Whether the directory that would hold `path` exists.
    pub fn parent_exists(&self, path: &[u8]) -> (r: bool)
        ensures
            r == dunit_parent_exists(self.nodes@, path@),
    {
        let k = match find_last_slash(path) {
            None => return true,
            Some(k) => k,
        };
        let parent = copy_range(path, 0, k);
        match self.node_index(parent.as_slice()) {
            Some(i) => match &self.nodes[i] {
                Some(node) => {
                    let r = node.file_type == FileType::Directory;
                    proof {
                        let c = clean(path@.subrange(0, k as int));
                        if dunit_parent_exists(self.nodes@, path@) {
                            let j = choose|j: int| 0 <= j < self.nodes@.len() && holds_path(#[trigger] self.nodes@[j], c)
                                && (forall|m: int| 0 <= m < j ==> !holds_path(self.nodes@[m], c)) && self.nodes@[j]->Some_0.file_type == FileType::Directory;
                            if j < i {
                            } else if j > i {
                                assert(!holds_path(self.nodes@[i as int], c));
                            }
                        }
                        if r {
                            assert(holds_path(self.nodes@[i as int], c));
                        }
                    }
                    r
                },
                None => false,
            },
            None => false,
        }
    }
}

/// The first empty node slot.
pub open spec fn first_free_slot(nodes: Seq<Option<Node>>) -> int {
    choose|i: int| 0 <= i < nodes.len() && nodes[i] is None && forall|j: int| 0 <= j < i ==> nodes[j] is Some
}

/// The node `create_node` stores for the cleaned path `c`.
pub open spec fn new_node(c: Seq<u8>, t: FileType) -> NodeInfo {
    NodeInfo { path: c, file_type: t, size: 0, first_block: 0, block_count: 0 }
}

impl DunitFs {
    /// Creates an empty node of type `t` at the cleaned `path` in the first
    /// empty slot and writes its entry to disk. Refused for an empty or
    /// too long path or a missing parent directory (`InvalidPath`), an
    /// existing path (`AlreadyExists`) and a full table (`IoError`).
    pub fn create_node<D: BlockIo>(&mut self, dev: &mut D, path: &[u8], t: FileType) -> (r: Result<(), VfsError>)
        requires
            old(self).nodes@.len() == MAX_NODES,
            forall|i: int| 0 <= i < old(self).nodes@.len() ==> slot_storable(#[trigger] old(self).nodes@[i]),
            old(self).partition_start + old(self).partition_blocks <= u64::MAX,
        ensures
            *final(self) == (DunitFs { nodes: final(self).nodes, ..*old(self) }),
            final(self).nodes@.len() == old(self).nodes@.len(),
            ({
                let c = clean(path@);
                let n0 = old(self).nodes@;
                let refused = c.len() == 0 || c.len() > PATH_SIZE || !dunit_parent_exists(n0, c);
                let taken = exists|i: int| 0 <= i < n0.len() && holds_path(#[trigger] n0[i], c);
                let full = forall|i: int| 0 <= i < n0.len() ==> (#[trigger] n0[i]) is Some;
                let k = first_free_slot(n0);
                &&& refused ==> r == Err::<(), VfsError>(VfsError::InvalidPath) && *final(self) == *old(self) && *final(dev) == *old(dev)
                &&& !refused && taken ==> r == Err::<(), VfsError>(VfsError::AlreadyExists) && *final(self) == *old(self) && *final(dev) == *old(dev)
                &&& !refused && !taken && full ==> r == Err::<(), VfsError>(VfsError::IoError) && *final(self) == *old(self) && *final(dev) == *old(dev)
                &&& !refused && !taken && !full ==> {
                    &&& final(self).nodes@ == n0.update(k, final(self).nodes@[k])
                    &&& final(self).nodes@[k] matches Some(n) && n@ == new_node(c, t)
                    &&& final(self).partition_start == old(self).partition_start
                    &&& final(self).device == old(self).device
                    &&& r is Err ==> r == Err::<(), VfsError>(VfsError::IoError) || r == Err::<(), VfsError>(VfsError::Unsupported)
                    &&& r is Ok ==> part_block(*final(dev), old(self).device.name.spec_bytes(), old(self).partition_start, (METADATA_START + k / 4) as u64)
                        == with_entry(part_block(*old(dev), old(self).device.name.spec_bytes(), old(self).partition_start, (METADATA_START + k / 4) as u64),
                            k % 4, node_entry(new_node(c, t)))
                }
            }),
    {
        let c = clean_path(path);
        if c.len() == 0 || c.len() > PATH_SIZE || !self.parent_exists(c.as_slice()) {
            return Err(VfsError::InvalidPath);
        }
        proof {
            crate::fs::memfs::lemma_clean_idempotent(path@);
        }
        match self.node_index(c.as_slice()) {
            Some(_) => return Err(VfsError::AlreadyExists),
            None => {},
        }
        let index = match self.free_node_index() {
            Some(i) => i,
            None => return Err(VfsError::IoError),
        };
        proof {
            let n0 = self.nodes@;
            let k = first_free_slot(n0);
            assert(0 <= index < n0.len() && n0[index as int] is None && forall|j: int| 0 <= j < index ==> n0[j] is Some);
            if k < index {
                assert(n0[k] is Some);
            } else if k > index {
                assert(n0[index as int] is Some);
            }
        }
        let ghost cv = c@;
        self.nodes.set(index, Some(Node { path: c, file_type: t, size: 0, first_block: 0, block_count: 0 }));
        proof {
            assert(self.nodes@[index as int]->Some_0@ == new_node(cv, t));
            assert(self.nodes@ == old(self).nodes@.update(index as int, self.nodes@[index as int]));
        }
        self.persist_node(dev, index)
    }
}

/// The bytes of file `n` as the device holds them: byte `k` lies at
/// position `k % 512` of block `first_block + k / 512` of the partition.
pub open spec fn node_bytes<D: BlockIo>(dev: D, name: Seq<u8>, start: u64, n: NodeInfo) -> Seq<u8> {
    Seq::new(n.size as nat, |k: int| run_byte(dev, name, start, n.first_block, k))
}

/// Byte `k` of the run of blocks from `first`.
pub open spec fn run_byte<D: BlockIo>(dev: D, name: Seq<u8>, start: u64, first: u64, k: int) -> u8 {
    part_block(dev, name, start, (first + k / 512) as u64)[k % 512]
}

/// Whether every block of the run of `n` reads back whole.
pub open spec fn faithful_run<D: BlockIo>(dev: D, name: Seq<u8>, start: u64, n: NodeInfo) -> bool {
    forall|rel: u64| n.first_block <= rel < n.first_block + n.block_count ==> #[trigger] faithful_block(dev, name, start, rel)
}

/// How many bytes a read of at most `cap` bytes at `offset` gets from a
/// file of `size` bytes.
pub open spec fn node_read_len(size: int, offset: int, cap: int) -> int {
    if offset >= size { 0 } else if cap < size - offset { cap } else { size - offset }
}

impl DunitFs {
    /// Reads node `index` from byte `offset` into `output`: as many bytes
    /// as `output` holds and the file has past `offset`, block by block.
    pub fn read_node<D: BlockIo>(&self, dev: &mut D, index: usize, offset: usize, output: &mut [u8]) -> (r: Result<usize, VfsError>)
        requires
            index < self.nodes@.len(),
            table_valid(self.nodes@, self.partition_blocks),
            self.partition_start + self.partition_blocks <= u64::MAX,
        ensures
            same_blocks(*final(dev), *old(dev)),
            same_readable(*final(dev), *old(dev)),
            final(output)@.len() == old(output)@.len(),
            self.nodes@[index as int] is None ==> r == Err::<usize, VfsError>(VfsError::NotFound) && final(output)@ == old(output)@,
            self.nodes@[index as int] matches Some(n) ==> {
                let name = self.device.name.spec_bytes();
                let len = node_read_len(n.size as int, offset as int, old(output)@.len() as int);
                &&& r is Ok ==> r == Ok::<usize, VfsError>(len as usize)
                    && (forall|m: int| 0 <= m < len ==> final(output)@[m] == #[trigger] node_bytes(*old(dev), name, self.partition_start, n@)[offset + m])
                    && (forall|m: int| len <= m < old(output)@.len() ==> #[trigger] final(output)@[m] == old(output)@[m])
                &&& r is Err ==> r == Err::<usize, VfsError>(VfsError::IoError)
                &&& faithful_run(*old(dev), name, self.partition_start, n@) ==> r is Ok
            },
    {
        let n = match &self.nodes[index] {
            Some(n) => n,
            None => return Err(VfsError::NotFound),
        };
        let ghost name = self.device.name.spec_bytes();
        let ghost content = node_bytes(*old(dev), name, self.partition_start, n@);
        let ghost ni = n@;
        proof {
            assert(self.nodes@[index as int] == Some(*n));
            assert(node_valid(ni, self.partition_blocks));
        }
        let size = n.size;
        let off = offset as u64;
        if off >= size {
            return Ok(0);
        }
        let avail = size - off;
        let length: usize = if (output.len() as u64) < avail { output.len() } else { avail as usize };
        let mut sector = zeroed(BLOCK_SIZE);
        let mut done: usize = 0;
        while done < length
            invariant
                0 <= done <= length,
                length == node_read_len(size as int, offset as int, output@.len() as int),
                off == offset,
                off < size,
                ni == n@,
                size == ni.size,
                self.nodes@[index as int] == Some(*n),
                content.len() == size,
                node_valid(ni, self.partition_blocks),
                self.partition_start + self.partition_blocks <= u64::MAX,
                sector@.len() == BLOCK_SIZE,
                output@.len() == old(output)@.len(),
                same_blocks(*dev, *old(dev)),
                same_readable(*dev, *old(dev)),
                content == node_bytes(*old(dev), name, self.partition_start, ni),
                name == self.device.name.spec_bytes(),
                forall|m: int| 0 <= m < done ==> output@[m] == content[offset + m],
                forall|m: int| done <= m < output@.len() ==> output@[m] == old(output)@[m],
            decreases length - done,
        {
            let position: u64 = off + done as u64;
            let sector_index: u64 = position / 512;
            let within: usize = (position % 512) as usize;
            proof {
                assert(position < size);
                assert(size as int <= blocks_bytes(ni.block_count));
                assert(sector_index < ni.block_count) by (nonlinear_arith)
                    requires
                        sector_index == position / 512,
                        position < size,
                        size <= blocks_bytes(ni.block_count),
                        blocks_bytes(ni.block_count) == if ni.block_count * 512 > u64::MAX { u64::MAX as int } else { ni.block_count * 512 };
            }
            let relative = n.first_block + sector_index;
            let ghost before = *dev;
            proof {
                assert(relative < self.partition_blocks);
                let lba = (self.partition_start + relative) as u64;
                if faithful_run(*old(dev), name, self.partition_start, ni) {
                    assert(faithful_block(*old(dev), name, self.partition_start, relative));
                    assert(before.readable(name, lba) == old(dev).readable(name, lba));
                    assert(before.block_at(name, lba) == old(dev).block_at(name, lba));
                    assert(faithful_block(before, name, self.partition_start, relative));
                }
            }
            match read_partition_block(dev, &self.device, self.partition_start, self.partition_blocks, relative, &mut sector) {
                Ok(()) => {},
                Err(_) => return Err(VfsError::IoError),
            }
            let ghost block = sector@;
            proof {
                assert(block == part_block(*old(dev), name, self.partition_start, relative)) by {
                    assert(before.block_at(name, (self.partition_start + relative) as u64)
                        == old(dev).block_at(name, (self.partition_start + relative) as u64));
                }
            }
            let count: usize = if length - done < BLOCK_SIZE - within { length - done } else { BLOCK_SIZE - within };
            let mut j: usize = 0;
            while j < count
                invariant
                    j <= count,
                    done + count <= length,
                    within + count <= BLOCK_SIZE,
                    position == offset + done,
                    position == sector_index * 512 + within,
                    relative == ni.first_block + sector_index,
                    sector@ == block,
                    sector@.len() == BLOCK_SIZE,
                    content.len() == size,
                    block == part_block(*old(dev), name, self.partition_start, relative),
                    content == node_bytes(*old(dev), name, self.partition_start, ni),
                    length <= output@.len(),
                    (offset + length) as int <= size,
                    output@.len() == old(output)@.len(),
                    forall|m: int| 0 <= m < done + j ==> output@[m] == content[offset + m],
                    forall|m: int| done + j <= m < output@.len() ==> output@[m] == old(output)@[m],
                decreases count - j,
            {
                proof {
                    vstd::arithmetic::div_mod::lemma_fundamental_div_mod_converse(
                        position + j, 512, sector_index as int, within + j);
                }
                output[done + j] = sector[within + j];
                j = j + 1;
            }
            done = done + count;
        }
        Ok(length)
    }
}

/// Block `rel` of the partition is the same in `a` and `b`.
pub open spec fn block_kept<D: BlockIo>(a: D, b: D, name: Seq<u8>, start: u64, rel: int) -> bool {
    a.block_at(name, (start + rel) as u64) == b.block_at(name, (start + rel) as u64)
}

/// A file whose run of blocks is the same in two device states holds the
/// same bytes in both.
proof fn lemma_bytes_kept<D: BlockIo>(a: D, b: D, name: Seq<u8>, start: u64, n: NodeInfo, pb: u64)
    requires
        node_valid(n, pb),
        start + pb <= u64::MAX,
        forall|rel: int| n.first_block <= rel < n.first_block + n.block_count ==> #[trigger] block_kept(a, b, name, start, rel),
    ensures
        node_bytes(a, name, start, n) == node_bytes(b, name, start, n),
{
    assert forall|k: int| 0 <= k < n.size implies #[trigger] node_bytes(a, name, start, n)[k] == node_bytes(b, name, start, n)[k] by {
        assert(k / 512 < n.block_count) by (nonlinear_arith)
            requires
                0 <= k < n.size,
                n.size <= blocks_bytes(n.block_count),
                blocks_bytes(n.block_count) == if n.block_count * 512 > u64::MAX { u64::MAX as int } else { n.block_count * 512 };
        assert(block_kept(a, b, name, start, n.first_block + k / 512));
    }
    assert(node_bytes(a, name, start, n) =~= node_bytes(b, name, start, n));
}

/// Where only blocks in `[lo, hi)` of the partition changed and that range
/// meets no node but slot `index`, every other node holds the same bytes.
proof fn lemma_others_kept<D: BlockIo>(a: D, b: D, name: Seq<u8>, start: u64, nodes: Seq<Option<Node>>, pb: u64, index: int, lo: int, hi: int)
    requires
        table_valid(nodes, pb),
        start + pb <= u64::MAX,
        forall|rel: int| 0 <= rel < pb && !(lo <= rel < hi) ==> #[trigger] block_kept(a, b, name, start, rel),
        forall|j: int| 0 <= j < nodes.len() && j != index ==> !#[trigger] run_meets(nodes[j], lo, hi),
    ensures
        forall|j: int| 0 <= j < nodes.len() && j != index && (#[trigger] nodes[j]) is Some
            ==> node_bytes(a, name, start, nodes[j]->Some_0@) == node_bytes(b, name, start, nodes[j]->Some_0@),
{
    assert forall|j: int| 0 <= j < nodes.len() && j != index && (#[trigger] nodes[j]) is Some
        implies node_bytes(a, name, start, nodes[j]->Some_0@) == node_bytes(b, name, start, nodes[j]->Some_0@) by {
        let n = nodes[j]->Some_0@;
        assert(node_valid(n, pb));
        assert(!run_meets(nodes[j], lo, hi));
        assert forall|rel: int| n.first_block <= rel < n.first_block + n.block_count implies #[trigger] block_kept(a, b, name, start, rel) by {
            assert(0 <= rel < pb);
        }
        lemma_bytes_kept(a, b, name, start, n, pb);
    }
}

/// Giving slot `index` a run that is free for it, at least as long as its
/// old one, keeps the table valid.
proof fn lemma_run_table_valid(n0: Seq<Option<Node>>, n1: Seq<Option<Node>>, pb: u64, index: int, first: int, count: int)
    requires
        table_valid(n0, pb),
        0 <= index < n0.len(),
        n0[index] is Some,
        n1.len() == n0.len(),
        forall|j: int| 0 <= j < n0.len() && j != index ==> n1[j] == n0[j],
        n1[index] is Some,
        n1[index]->Some_0@ == (NodeInfo { first_block: first as u64, block_count: count as u64, ..n0[index]->Some_0@ }),
        count >= n0[index]->Some_0@.block_count,
        count > 0,
        n0[index]->Some_0@.file_type == FileType::File,
        range_is_free(n0, pb, first, count, index),
    ensures
        table_valid(n1, pb),
{
    let on = n0[index]->Some_0@;
    let fnode = n1[index]->Some_0@;
    assert(node_valid(on, pb));
    assert(blocks_bytes(on.block_count) <= blocks_bytes(fnode.block_count)) by (nonlinear_arith)
        requires
            on.block_count <= fnode.block_count,
            blocks_bytes(on.block_count) == if on.block_count * 512 > u64::MAX { u64::MAX as int } else { on.block_count * 512 },
            blocks_bytes(fnode.block_count) == if fnode.block_count * 512 > u64::MAX { u64::MAX as int } else { fnode.block_count * 512 };
    assert(node_valid(fnode, pb));
    assert forall|i: int| 0 <= i < n1.len() && (#[trigger] n1[i]) is Some implies node_valid(n1[i]->Some_0@, pb) by {
        if i != index {
            assert(n1[i] == n0[i]);
        }
    }
    assert forall|i: int, j: int| 0 <= i < n1.len() && 0 <= j < n1.len() && i != j && (#[trigger] n1[i]) is Some
        && (#[trigger] n1[j]) is Some implies !runs_overlap(n1[i]->Some_0@, n1[j]->Some_0@) by {
        if i != index && j != index {
            assert(n1[i] == n0[i] && n1[j] == n0[j]);
        } else if i == index {
            assert(n1[j] == n0[j]);
            assert(!run_meets(n0[j], first, first + count));
            assert(node_valid(n0[j]->Some_0@, pb));
        } else {
            assert(n1[i] == n0[i]);
            assert(!run_meets(n0[i], first, first + count));
            assert(node_valid(n0[i]->Some_0@, pb));
        }
    }
}

impl DunitFs {
    /// Gives node slot `index` the run of `count` blocks from `first`.
    fn set_run(&mut self, index: usize, first: u64, count: u64)
        requires
            index < old(self).nodes@.len(),
            old(self).nodes@[index as int] is Some,
        ensures
            *final(self) == (DunitFs { nodes: final(self).nodes, ..*old(self) }),
            final(self).nodes@.len() == old(self).nodes@.len(),
            forall|j: int| 0 <= j < old(self).nodes@.len() && j != index ==> final(self).nodes@[j] == old(self).nodes@[j],
            final(self).nodes@[index as int] is Some,
            final(self).nodes@[index as int]->Some_0@ == (NodeInfo { first_block: first, block_count: count, ..old(self).nodes@[index as int]->Some_0@ }),
    {
        let slot = self.nodes.remove(index);
        match slot {
            Some(mut n) => {
                n.first_block = first;
                n.block_count = count;
                self.nodes.insert(index, Some(n));
            },
            None => {
                self.nodes.insert(index, None);
            },
        }
        proof {
            assert forall|j: int| 0 <= j < old(self).nodes@.len() && j != index implies self.nodes@[j] == old(self).nodes@[j] by {
                if j < index {
                } else {
                }
            }
        }
    }

    /// Makes the run of file slot `index` hold at least `required` blocks:
    /// a run that is long enough stays; one that can grow in place grows;
    /// otherwise the first free run that is long enough is taken and the old
    /// blocks are copied to its start. No free run answers `IoError`.
    pub fn ensure_capacity<D: BlockIo>(&mut self, dev: &mut D, index: usize, required: u64) -> (r: Result<(), VfsError>)
        requires
            index < old(self).nodes@.len(),
            old(self).nodes@[index as int] is Some,
            old(self).nodes@[index as int]->Some_0.file_type == FileType::File,
            table_valid(old(self).nodes@, old(self).partition_blocks),
            old(self).partition_blocks < u64::MAX,
            old(self).partition_start + old(self).partition_blocks <= u64::MAX,
        ensures
            *final(self) == (DunitFs { nodes: final(self).nodes, ..*old(self) }),
            table_valid(final(self).nodes@, final(self).partition_blocks),
            forall|j: int| 0 <= j < old(self).nodes@.len() && j != index ==> final(self).nodes@[j] == old(self).nodes@[j],
            ({
                let on = old(self).nodes@[index as int]->Some_0@;
                let fnode = final(self).nodes@[index as int]->Some_0@;
                let name = old(self).device.name.spec_bytes();
                let start = old(self).partition_start;
                &&& final(self).nodes@[index as int] is Some
                &&& fnode.path == on.path && fnode.file_type == on.file_type && fnode.size == on.size
                &&& r is Err ==> r == Err::<(), VfsError>(VfsError::IoError) && final(self).nodes@ == old(self).nodes@
                &&& r is Ok ==> fnode.block_count >= required
                    && node_bytes(*final(dev), name, start, fnode) == node_bytes(*old(dev), name, start, on)
                &&& forall|j: int| 0 <= j < old(self).nodes@.len() && j != index && (#[trigger] old(self).nodes@[j]) is Some
                    ==> node_bytes(*final(dev), name, start, old(self).nodes@[j]->Some_0@) == node_bytes(*old(dev), name, start, old(self).nodes@[j]->Some_0@)
            }),
    {
        let ghost name = self.device.name.spec_bytes();
        let ghost start = self.partition_start;
        let ghost pb = self.partition_blocks;
        let ghost nodes0 = self.nodes@;
        let ghost on = nodes0[index as int]->Some_0@;
        let (old_first, old_blocks) = match &self.nodes[index] {
            Some(n) => (n.first_block, n.block_count),
            None => return Err(VfsError::NotFound),
        };
        proof {
            assert(node_valid(on, pb));
        }
        if required <= old_blocks {
            proof {
                lemma_others_kept(*dev, *old(dev), name, start, nodes0, pb, index as int, 0, 0);
            }
            return Ok(());
        }
        if old_blocks != 0 && self.range_free(old_first, required, index) {
            self.set_run(index, old_first, required);
            proof {
                let fnode = self.nodes@[index as int]->Some_0@;
                assert(node_bytes(*dev, name, start, fnode) =~= node_bytes(*dev, name, start, on));
                lemma_run_table_valid(nodes0, self.nodes@, pb, index as int, old_first as int, required as int);
                lemma_others_kept(*dev, *old(dev), name, start, nodes0, pb, index as int, 0, 0);
            }
            return Ok(());
        }
        let new_first = match self.allocate_range(required, index) {
            Some(c) => c,
            None => {
                proof {
                    lemma_others_kept(*dev, *old(dev), name, start, nodes0, pb, index as int, 0, 0);
                }
                return Err(VfsError::IoError);
            },
        };
        proof {
            if old_blocks != 0 && old_first < new_first && new_first < old_first + old_blocks {
                assert(!range_is_free(nodes0, pb, old_first as int, required as int, index as int));
                assert(range_is_free(nodes0, pb, new_first as int, required as int, index as int));
                if exists|j: int| 0 <= j < nodes0.len() && j != index && #[trigger] run_meets(nodes0[j], old_first as int, old_first + required) {
                    let j = choose|j: int| 0 <= j < nodes0.len() && j != index && #[trigger] run_meets(nodes0[j], old_first as int, old_first + required);
                    assert(!runs_overlap(on, nodes0[j]->Some_0@));
                    assert(node_valid(nodes0[j]->Some_0@, pb));
                    assert(run_meets(nodes0[j], new_first as int, new_first + required));
                }
            }
        }
        let mut sector = zeroed(BLOCK_SIZE);
        let mut o: u64 = 0;
        while o < old_blocks
            invariant
                o <= old_blocks,
                *self == *old(self),
                self.nodes@ == nodes0,
                table_valid(nodes0, pb),
                index < nodes0.len(),
                nodes0[index as int] is Some,
                self.device.name.spec_bytes() == name,
                self.partition_start == start,
                self.partition_blocks == pb,
                start + pb <= u64::MAX,
                on == nodes0[index as int]->Some_0@,
                old_first == on.first_block,
                old_blocks == on.block_count,
                old_blocks < required,
                node_valid(on, pb),
                range_is_free(nodes0, pb, new_first as int, required as int, index as int),
                old_blocks == 0 || new_first <= old_first || new_first >= old_first + old_blocks,
                sector@.len() == BLOCK_SIZE,
                forall|q: int| 0 <= q < o ==> #[trigger] part_block(*dev, name, start, (new_first + q) as u64) == part_block(*old(dev), name, start, (old_first + q) as u64),
                forall|rel: int| 0 <= rel < pb && !(new_first <= rel < new_first + o) ==> #[trigger] block_kept(*dev, *old(dev), name, start, rel),
            decreases old_blocks - o,
        {
            let ghost before = *dev;
            match read_partition_block(dev, &self.device, self.partition_start, self.partition_blocks, old_first + o, &mut sector) {
                Ok(()) => {},
                Err(_) => {
                    proof {
                        assert forall|rel: int| 0 <= rel < pb && !(new_first <= rel < new_first + required) implies #[trigger] block_kept(*dev, *old(dev), name, start, rel) by {
                            assert(block_kept(before, *old(dev), name, start, rel));
                        }
                        lemma_others_kept(*dev, *old(dev), name, start, nodes0, pb, index as int, new_first as int, new_first + required);
                    }
                    return Err(VfsError::IoError);
                },
            }
            proof {
                assert(block_kept(before, *old(dev), name, start, old_first + o));
                assert(forall|rel: int| 0 <= rel < pb && !(new_first <= rel < new_first + o) ==> #[trigger] block_kept(*dev, *old(dev), name, start, rel)) by {
                    assert forall|rel: int| 0 <= rel < pb && !(new_first <= rel < new_first + o) implies #[trigger] block_kept(*dev, *old(dev), name, start, rel) by {
                        assert(block_kept(before, *old(dev), name, start, rel));
                    }
                }
            }
            let ghost mid = *dev;
            match write_partition_block(dev, &self.device, self.partition_start, self.partition_blocks, new_first + o, &sector) {
                Ok(()) => {},
                Err(_) => {
                    proof {
                        assert forall|rel: int| 0 <= rel < pb && !(new_first <= rel < new_first + required) implies #[trigger] block_kept(*dev, *old(dev), name, start, rel) by {
                            assert(block_kept(mid, *old(dev), name, start, rel));
                        }
                        lemma_others_kept(*dev, *old(dev), name, start, nodes0, pb, index as int, new_first as int, new_first + required);
                    }
                    return Err(VfsError::IoError);
                },
            }
            proof {
                assert(sector@.subrange(0, BLOCK_SIZE as int) =~= sector@);
                assert forall|q: int| 0 <= q < o + 1 implies #[trigger] part_block(*dev, name, start, (new_first + q) as u64) == part_block(*old(dev), name, start, (old_first + q) as u64) by {
                    if q < o {
                        assert(dev.block_at(name, (start + (new_first + q) as u64) as u64) == mid.block_at(name, (start + (new_first + q) as u64) as u64));
                        assert(mid.block_at(name, (start + (new_first + q) as u64) as u64) == before.block_at(name, (start + (new_first + q) as u64) as u64));
                        assert(part_block(before, name, start, (new_first + q) as u64) == part_block(*old(dev), name, start, (old_first + q) as u64));
                    } else {
                        assert(sector@ == part_block(before, name, start, (old_first + o) as u64));
                        assert(before.block_at(name, (start + (old_first + o) as u64) as u64) == old(dev).block_at(name, (start + (old_first + o) as u64) as u64));
                        assert(part_block(*dev, name, start, (new_first + o) as u64) == sector@);
                    }
                }
                assert forall|rel: int| 0 <= rel < pb && !(new_first <= rel < new_first + o + 1) implies #[trigger] block_kept(*dev, *old(dev), name, start, rel) by {
                    assert(block_kept(mid, *old(dev), name, start, rel));
                }
            }
            o = o + 1;
        }
        self.set_run(index, new_first, required);
        proof {
            let fnode = self.nodes@[index as int]->Some_0@;
            assert forall|k: int| 0 <= k < on.size implies #[trigger] node_bytes(*dev, name, start, fnode)[k] == node_bytes(*old(dev), name, start, on)[k] by {
                assert(k / 512 < on.block_count) by (nonlinear_arith)
                    requires
                        0 <= k < on.size,
                        on.size <= blocks_bytes(on.block_count),
                        blocks_bytes(on.block_count) == if on.block_count * 512 > u64::MAX { u64::MAX as int } else { on.block_count * 512 };
                let q = k / 512;
                assert(part_block(*dev, name, start, (new_first + q) as u64) == part_block(*old(dev), name, start, (old_first + q) as u64));
            }
            assert(node_bytes(*dev, name, start, fnode) =~= node_bytes(*old(dev), name, start, on));
            lemma_run_table_valid(nodes0, self.nodes@, pb, index as int, new_first as int, required as int);
            assert forall|rel: int| 0 <= rel < pb && !(new_first <= rel < new_first + required) implies #[trigger] block_kept(*dev, *old(dev), name, start, rel) by {
                assert(!(new_first <= rel < new_first + old_blocks));
            }
            lemma_others_kept(*dev, *old(dev), name, start, nodes0, pb, index as int, new_first as int, new_first + required);
        }
        Ok(())
    }
}

/// The file that `write_node` leaves: `input` stands at `offset`, the size
/// grows to cover it, and every other byte of the old file is kept.
pub open spec fn node_written(old_bytes: Seq<u8>, new_bytes: Seq<u8>, offset: int, input: Seq<u8>) -> bool {
    let end = offset + input.len();
    &&& new_bytes.len() == if end > old_bytes.len() { end } else { old_bytes.len() as int }
    &&& forall|m: int| 0 <= m < input.len() ==> #[trigger] new_bytes[offset + m] == input[m]
    &&& forall|k: int| 0 <= k < old_bytes.len() && !(offset <= k < end) ==> #[trigger] new_bytes[k] == old_bytes[k]
}

/// Where the blocks of the data area outside the run `[first, first + bc)`
/// of slot `index` stayed the same from `e` through `a` to `b`, and the
/// other nodes held in `e` what they held in `o`, they still hold it in `b`.
proof fn lemma_write_exit<D: BlockIo>(a: D, b: D, e: D, o: D, name: Seq<u8>, start: u64, nodes0: Seq<Option<Node>>, nodes1: Seq<Option<Node>>,
    pb: u64, index: int, first: int, bc: int)
    requires
        table_valid(nodes1, pb),
        start + pb <= u64::MAX,
        0 <= index < nodes1.len(),
        nodes0.len() == nodes1.len(),
        nodes1[index] is Some,
        nodes1[index]->Some_0@.first_block == first,
        nodes1[index]->Some_0@.block_count == bc,
        forall|j: int| 0 <= j < nodes0.len() && j != index ==> nodes1[j] == nodes0[j],
        forall|j: int| 0 <= j < nodes0.len() && j != index && (#[trigger] nodes0[j]) is Some
            ==> node_bytes(e, name, start, nodes0[j]->Some_0@) == node_bytes(o, name, start, nodes0[j]->Some_0@),
        forall|rel: int| 0 <= rel < pb && !(first <= rel < first + bc) ==> #[trigger] block_kept(a, e, name, start, rel),
        forall|rel: int| DATA_START <= rel < pb && !(first <= rel < first + bc) ==> #[trigger] block_kept(b, a, name, start, rel),
    ensures
        forall|j: int| 0 <= j < nodes0.len() && j != index && (#[trigger] nodes0[j]) is Some
            ==> node_bytes(b, name, start, nodes0[j]->Some_0@) == node_bytes(o, name, start, nodes0[j]->Some_0@),
{
    assert forall|j: int| 0 <= j < nodes0.len() && j != index && (#[trigger] nodes0[j]) is Some
        implies node_bytes(b, name, start, nodes0[j]->Some_0@) == node_bytes(o, name, start, nodes0[j]->Some_0@) by {
        let n = nodes0[j]->Some_0@;
        assert(nodes1[j] == nodes0[j]);
        assert(node_valid(n, pb));
        assert(!runs_overlap(nodes1[index]->Some_0@, n));
        assert forall|rel: int| n.first_block <= rel < n.first_block + n.block_count implies #[trigger] block_kept(b, e, name, start, rel) by {
            assert(block_kept(b, a, name, start, rel));
            assert(block_kept(a, e, name, start, rel));
        }
        lemma_bytes_kept(b, e, name, start, n, pb);
    }
}

/// Giving file slot `index` a size that its run holds keeps the table valid.
proof fn lemma_size_table_valid(n1: Seq<Option<Node>>, n2: Seq<Option<Node>>, pb: u64, index: int, size: u64)
    requires
        table_valid(n1, pb),
        0 <= index < n1.len(),
        n1[index] is Some,
        n1[index]->Some_0@.file_type == FileType::File,
        n2.len() == n1.len(),
        forall|j: int| 0 <= j < n1.len() && j != index ==> n2[j] == n1[j],
        n2[index] is Some,
        n2[index]->Some_0@ == (NodeInfo { size, ..n1[index]->Some_0@ }),
        size <= blocks_bytes(n1[index]->Some_0@.block_count),
    ensures
        table_valid(n2, pb),
{
    assert(node_valid(n1[index]->Some_0@, pb));
    assert forall|i: int| 0 <= i < n2.len() && (#[trigger] n2[i]) is Some implies node_valid(n2[i]->Some_0@, pb) by {
        if i != index {
            assert(n2[i] == n1[i]);
        }
    }
    assert forall|i: int, j: int| 0 <= i < n2.len() && 0 <= j < n2.len() && i != j && (#[trigger] n2[i]) is Some
        && (#[trigger] n2[j]) is Some implies !runs_overlap(n2[i]->Some_0@, n2[j]->Some_0@) by {
        assert(n1[i] is Some && n1[j] is Some);
        assert(!runs_overlap(n1[i]->Some_0@, n1[j]->Some_0@));
    }
}

/// What is written to a file is read back: after `write_node` put `input`
/// at `offset` (the file's bytes going from `old_bytes` to `new_bytes`), a
/// `read_node` at `offset` into a buffer of `cap >= input.len()` bytes gets
/// at least `input.len()` bytes, the first of them `input` itself; with a
/// buffer of exactly `input.len()` bytes it gets exactly `input`.
pub proof fn law_write_then_read_node(old_bytes: Seq<u8>, new_bytes: Seq<u8>, offset: int, input: Seq<u8>, cap: int)
    requires
        node_written(old_bytes, new_bytes, offset, input),
        0 <= offset,
        input.len() <= cap,
    ensures
        node_read_len(new_bytes.len() as int, offset, cap) >= input.len(),
        node_read_len(new_bytes.len() as int, offset, input.len() as int) == input.len(),
        forall|m: int| 0 <= m < input.len() ==> #[trigger] new_bytes[offset + m] == input[m],
{
}

impl DunitFs {
    /// Sets the size of node slot `index`.
    fn set_size(&mut self, index: usize, size: u64)
        requires
            index < old(self).nodes@.len(),
            old(self).nodes@[index as int] is Some,
        ensures
            *final(self) == (DunitFs { nodes: final(self).nodes, ..*old(self) }),
            final(self).nodes@.len() == old(self).nodes@.len(),
            forall|j: int| 0 <= j < old(self).nodes@.len() && j != index ==> final(self).nodes@[j] == old(self).nodes@[j],
            final(self).nodes@[index as int] is Some,
            final(self).nodes@[index as int]->Some_0@ == (NodeInfo { size, ..old(self).nodes@[index as int]->Some_0@ }),
    {
        let slot = self.nodes.remove(index);
        match slot {
            Some(mut n) => {
                n.size = size;
                self.nodes.insert(index, Some(n));
            },
            None => {
                self.nodes.insert(index, None);
            },
        }
        proof {
            assert forall|j: int| 0 <= j < old(self).nodes@.len() && j != index implies self.nodes@[j] == old(self).nodes@[j] by {
                if j < index {
                } else {
                }
            }
        }
    }

    /// Writes `input` into file slot `index` at byte `offset`: the run is
    /// grown to hold the end of the write, each block touched is read,
    /// patched and written back (a block the write covers whole is not
    /// read), the size grows to the end of the write and the node's entry
    /// is stored. A write whose end does not fit in `usize`, a run that
    /// cannot grow and a device failure answer `IoError`.
    pub fn write_node<D: BlockIo>(&mut self, dev: &mut D, index: usize, offset: usize, input: &[u8]) -> (r: Result<usize, VfsError>)
        requires
            index < old(self).nodes@.len(),
            index < MAX_NODES,
            old(self).nodes@[index as int] is Some,
            old(self).nodes@[index as int]->Some_0.file_type == FileType::File,
            table_valid(old(self).nodes@, old(self).partition_blocks),
            old(self).partition_blocks < u64::MAX,
            old(self).partition_start + old(self).partition_blocks <= u64::MAX,
        ensures
            *final(self) == (DunitFs { nodes: final(self).nodes, ..*old(self) }),
            table_valid(final(self).nodes@, final(self).partition_blocks),
            forall|j: int| 0 <= j < old(self).nodes@.len() && j != index ==> final(self).nodes@[j] == old(self).nodes@[j],
            ({
                let on = old(self).nodes@[index as int]->Some_0@;
                let fnode = final(self).nodes@[index as int]->Some_0@;
                let name = old(self).device.name.spec_bytes();
                let start = old(self).partition_start;
                &&& final(self).nodes@[index as int] is Some
                &&& fnode.path == on.path && fnode.file_type == on.file_type
                &&& fnode.size == on.size || fnode.size == offset + input@.len()
                &&& offset + input@.len() > usize::MAX ==> r == Err::<usize, VfsError>(VfsError::IoError) && *final(self) == *old(self)
                    && same_blocks(*final(dev), *old(dev))
                &&& r is Err ==> r == Err::<usize, VfsError>(VfsError::IoError)
                &&& r is Ok ==> r == Ok::<usize, VfsError>(input@.len() as usize)
                    && node_written(node_bytes(*old(dev), name, start, on), node_bytes(*final(dev), name, start, fnode), offset as int, input@)
                &&& forall|j: int| 0 <= j < old(self).nodes@.len() && j != index && (#[trigger] old(self).nodes@[j]) is Some
                    ==> node_bytes(*final(dev), name, start, old(self).nodes@[j]->Some_0@) == node_bytes(*old(dev), name, start, old(self).nodes@[j]->Some_0@)
            }),
    {
        let ghost name = self.device.name.spec_bytes();
        let ghost start = self.partition_start;
        let ghost pb = self.partition_blocks;
        let ghost nodes0 = self.nodes@;
        let ghost on = nodes0[index as int]->Some_0@;
        let end = match offset.checked_add(input.len()) {
            Some(e) => e,
            None => return Err(VfsError::IoError),
        };
        let required: u64 = (end / BLOCK_SIZE) as u64 + if end % BLOCK_SIZE != 0 { 1u64 } else { 0u64 };
        proof {
            assert(end <= required * 512) by (nonlinear_arith)
                requires
                    required == end / 512 + if end % 512 != 0 { 1int } else { 0int },
                    end >= 0;
        }
        match self.ensure_capacity(dev, index, required) {
            Ok(()) => {},
            Err(e) => return Err(e),
        }
        let ghost e_dev = *dev;
        let ghost nodes1 = self.nodes@;
        let ghost f1 = nodes1[index as int]->Some_0@;
        let first = match &self.nodes[index] {
            Some(n) => n.first_block,
            None => return Err(VfsError::IoError),
        };
        proof {
            assert(node_valid(f1, pb));
            assert(required <= f1.block_count);
        }
        let mut sector = zeroed(BLOCK_SIZE);
        let mut done: usize = 0;
        while done < input.len()
            invariant
                *self == (DunitFs { nodes: self.nodes, ..*old(self) }),
                self.nodes@ == nodes1,
                nodes0 == old(self).nodes@,
                index < nodes1.len(),
                index < MAX_NODES,
                nodes0.len() == nodes1.len(),
                on == nodes0[index as int]->Some_0@,
                forall|j: int| 0 <= j < nodes0.len() && j != index ==> nodes1[j] == nodes0[j],
                forall|j: int| 0 <= j < nodes0.len() && j != index && (#[trigger] nodes0[j]) is Some
                    ==> node_bytes(e_dev, name, start, nodes0[j]->Some_0@) == node_bytes(*old(dev), name, start, nodes0[j]->Some_0@),
                node_bytes(e_dev, name, start, f1) == node_bytes(*old(dev), name, start, on),
                f1.path == on.path && f1.file_type == on.file_type,
                f1.file_type == FileType::File,
                input@.len() <= usize::MAX,
                table_valid(nodes1, pb),
                pb == self.partition_blocks,
                start == self.partition_start,
                name == self.device.name.spec_bytes(),
                start + pb <= u64::MAX,
                nodes1[index as int] is Some,
                f1 == nodes1[index as int]->Some_0@,
                node_valid(f1, pb),
                first == f1.first_block,
                f1.size == on.size,
                end == offset + input@.len(),
                end <= required * 512,
                required <= f1.block_count,
                done <= input@.len(),
                sector@.len() == BLOCK_SIZE,
                forall|k: int| offset <= k < offset + done ==> #[trigger] run_byte(*dev, name, start, first, k) == input@[k - offset],
                forall|k: int| 0 <= k < on.size && !(offset <= k < offset + done) ==> #[trigger] run_byte(*dev, name, start, first, k) == run_byte(e_dev, name, start, first, k),
                forall|rel: int| 0 <= rel < pb && !(first <= rel < first + f1.block_count) ==> #[trigger] block_kept(*dev, e_dev, name, start, rel),
            decreases input@.len() - done,
        {
            let position: usize = offset + done;
            let si: usize = position / BLOCK_SIZE;
            let within: usize = position % BLOCK_SIZE;
            let count: usize = if input.len() - done < BLOCK_SIZE - within { input.len() - done } else { BLOCK_SIZE - within };
            proof {
                assert(si < f1.block_count) by (nonlinear_arith)
                    requires
                        si == position / 512,
                        position < end,
                        end <= required * 512,
                        required <= f1.block_count;
                vstd::arithmetic::div_mod::lemma_fundamental_div_mod(position as int, 512);
            }
            let lba: u64 = first + si as u64;
            let ghost before = *dev;
            if within != 0 || count != BLOCK_SIZE {
                match read_partition_block(dev, &self.device, self.partition_start, self.partition_blocks, lba, &mut sector) {
                    Ok(()) => {},
                    Err(_) => {
                        proof {
                            lemma_write_exit(before, *dev, e_dev, *old(dev), name, start, nodes0, nodes1, pb, index as int, first as int, f1.block_count as int);
                        }
                        return Err(VfsError::IoError);
                    },
                }
            } else {
                sector = zeroed(BLOCK_SIZE);
            }
            let ghost pre = sector@;
            let ghost mid = *dev;
            proof {
                if within != 0 || count != BLOCK_SIZE {
                    assert(pre == part_block(before, name, start, lba));
                }
            }
            let mut j: usize = 0;
            while j < count
                invariant
                    j <= count,
                    within + count <= BLOCK_SIZE,
                    done + count <= input@.len(),
                    input@.len() <= usize::MAX,
                    sector@.len() == BLOCK_SIZE,
                    forall|w: int| 0 <= w < BLOCK_SIZE ==> #[trigger] sector@[w] == if within <= w < within + j { input@[done + w - within] } else { pre[w] },
                decreases count - j,
            {
                sector.set(within + j, input[done + j]);
                j = j + 1;
            }
            match write_partition_block(dev, &self.device, self.partition_start, self.partition_blocks, lba, &sector) {
                Ok(()) => {},
                Err(_) => {
                    proof {
                        lemma_write_exit(before, *dev, e_dev, *old(dev), name, start, nodes0, nodes1, pb, index as int, first as int, f1.block_count as int);
                    }
                    return Err(VfsError::IoError);
                },
            }
            proof {
                assert(sector@.subrange(0, BLOCK_SIZE as int) =~= sector@);
                assert(part_block(*dev, name, start, lba) == sector@);
                assert forall|k: int| 0 <= k && k / 512 < f1.block_count && (k / 512 != si as int) implies
                    #[trigger] run_byte(*dev, name, start, first, k) == run_byte(before, name, start, first, k) by {
                    assert((first + k / 512) as u64 != lba);
                    let l = (start + ((first + k / 512) as u64)) as u64;
                    assert(dev.block_at(name, l) == mid.block_at(name, l));
                    assert(mid.block_at(name, l) == before.block_at(name, l));
                }
                assert forall|k: int| 0 <= k && k / 512 == si as int implies
                    #[trigger] run_byte(*dev, name, start, first, k) == (if within <= k % 512 < within + count { input@[done + k % 512 - within] } else { pre[k % 512] }) by {
                    vstd::arithmetic::div_mod::lemma_fundamental_div_mod(k, 512);
                }
                assert forall|k: int| offset <= k < offset + done + count implies #[trigger] run_byte(*dev, name, start, first, k) == input@[k - offset] by {
                    vstd::arithmetic::div_mod::lemma_fundamental_div_mod(k, 512);
                    assert(k / 512 < f1.block_count) by (nonlinear_arith)
                        requires
                            0 <= k < end,
                            end <= required * 512,
                            required <= f1.block_count;
                    if k / 512 == si as int {
                        if k < offset + done {
                            assert(k % 512 < within);
                            assert(pre[k % 512] == run_byte(before, name, start, first, k));
                        }
                    }
                }
                assert forall|k: int| 0 <= k < on.size && !(offset <= k < offset + done + count) implies #[trigger] run_byte(*dev, name, start, first, k) == run_byte(e_dev, name, start, first, k) by {
                    vstd::arithmetic::div_mod::lemma_fundamental_div_mod(k, 512);
                    assert(k / 512 < f1.block_count) by (nonlinear_arith)
                        requires
                            0 <= k < on.size,
                            on.size <= blocks_bytes(f1.block_count),
                            blocks_bytes(f1.block_count) == if f1.block_count * 512 > u64::MAX { u64::MAX as int } else { f1.block_count * 512 };
                    if k / 512 == si as int {
                        assert(!(within <= k % 512 < within + count));
                        assert(pre[k % 512] == run_byte(before, name, start, first, k));
                    }
                }
                assert forall|rel: int| 0 <= rel < pb && !(first <= rel < first + f1.block_count) implies #[trigger] block_kept(*dev, e_dev, name, start, rel) by {
                    assert(block_kept(before, e_dev, name, start, rel));
                    let l = (start + rel) as u64;
                    assert(dev.block_at(name, l) == mid.block_at(name, l));
                    assert(mid.block_at(name, l) == before.block_at(name, l));
                }
            }
            done = done + count;
        }
        let ghost l_dev = *dev;
        let size = match &self.nodes[index] {
            Some(n) => if n.size < end as u64 { end as u64 } else { n.size },
            None => return Err(VfsError::IoError),
        };
        proof {
            assert(size <= blocks_bytes(f1.block_count)) by (nonlinear_arith)
                requires
                    size == end || size == on.size,
                    end <= required * 512,
                    required <= f1.block_count,
                    end <= u64::MAX,
                    on.size <= blocks_bytes(f1.block_count),
                    blocks_bytes(f1.block_count) == if f1.block_count * 512 > u64::MAX { u64::MAX as int } else { f1.block_count * 512 };
        }
        self.set_size(index, size);
        proof {
            lemma_size_table_valid(nodes1, self.nodes@, pb, index as int, size);
        }
        match self.persist_node(dev, index) {
            Ok(()) => {},
            Err(_) => {
                proof {
                    lemma_write_exit(l_dev, *dev, e_dev, *old(dev), name, start, nodes0, nodes1, pb, index as int, first as int, f1.block_count as int);
                }
                return Err(VfsError::IoError);
            },
        }
        proof {
            lemma_write_exit(l_dev, *dev, e_dev, *old(dev), name, start, nodes0, nodes1, pb, index as int, first as int, f1.block_count as int);
            let fnode = self.nodes@[index as int]->Some_0@;
            let nb = node_bytes(*dev, name, start, fnode);
            let ob = node_bytes(*old(dev), name, start, on);
            assert forall|k: int| 0 <= k < fnode.size implies #[trigger] nb[k] == run_byte(l_dev, name, start, first, k) by {
                assert(k / 512 < f1.block_count) by (nonlinear_arith)
                    requires
                        0 <= k < fnode.size,
                        fnode.size <= end || fnode.size == on.size,
                        end <= required * 512,
                        required <= f1.block_count,
                        on.size <= blocks_bytes(f1.block_count),
                        blocks_bytes(f1.block_count) == if f1.block_count * 512 > u64::MAX { u64::MAX as int } else { f1.block_count * 512 };
                assert(f1.block_count != 0 && first >= DATA_START);
                assert(index / 4 < 16);
                let l = (start + ((first + k / 512) as u64)) as u64;
                assert(dev.block_at(name, l) == l_dev.block_at(name, l));
            }
            assert forall|m: int| 0 <= m < input@.len() implies #[trigger] nb[offset + m] == input@[m] by {
                assert(run_byte(l_dev, name, start, first, offset + m) == input@[offset + m - offset]);
            }
            assert forall|k: int| 0 <= k < ob.len() && !(offset <= k < end) implies #[trigger] nb[k] == ob[k] by {
                assert(run_byte(l_dev, name, start, first, k) == run_byte(e_dev, name, start, first, k));
                assert(node_bytes(e_dev, name, start, f1)[k] == run_byte(e_dev, name, start, first, k));
            }
        }
        Ok(input.len())
    }
}

/// Every open handle is on a file node of the table.
pub open spec fn handles_on_files(nodes: Seq<Option<Node>>, hs: Seq<(FileHandle, OpenHandle)>) -> bool {
    forall|k: int| 0 <= k < hs.len() ==> (#[trigger] hs[k]).1.node < nodes.len()
        && nodes[hs[k].1.node as int] is Some && nodes[hs[k].1.node as int]->Some_0.file_type == FileType::File
}

/// Every file size fits in `usize`.
pub open spec fn sizes_fit(nodes: Seq<Option<Node>>) -> bool {
    forall|i: int| 0 <= i < nodes.len() && (#[trigger] nodes[i]) is Some ==> nodes[i]->Some_0.size <= usize::MAX
}

/// `k` is the position of the first open handle numbered `h`.
pub open spec fn first_handle_at(hs: Seq<(FileHandle, OpenHandle)>, h: FileHandle, k: int) -> bool {
    &&& 0 <= k < hs.len()
    &&& hs[k].0 == h
    &&& forall|j: int| 0 <= j < k ==> (#[trigger] hs[j]).0 != h
}

impl DunitFs {
    /// A mounted file system that files can be read and written on: a
    /// valid node table in a partition that ends inside the device's
    /// address range, with every open handle on a file.
    pub open spec fn io_ready(&self) -> bool {
        &&& table_valid(self.nodes@, self.partition_blocks)
        &&& self.partition_blocks < u64::MAX
        &&& self.partition_start + self.partition_blocks <= u64::MAX
        &&& handles_on_files(self.nodes@, self.handles@)
        &&& sizes_fit(self.nodes@)
    }

    /// Position of the first open handle numbered `handle`.
    pub fn handle_index(&self, handle: FileHandle) -> (r: Option<usize>)
        ensures
            r matches Some(k) ==> first_handle_at(self.handles@, handle, k as int),
            r is None ==> forall|j: int| 0 <= j < self.handles@.len() ==> (#[trigger] self.handles@[j]).0 != handle,
    {
        let mut i: usize = 0;
        while i < self.handles.len()
            invariant
                i <= self.handles@.len(),
                forall|j: int| 0 <= j < i ==> (#[trigger] self.handles@[j]).0 != handle,
            decreases self.handles@.len() - i,
        {
            if self.handles[i].0 == handle {
                return Some(i);
            }
            i = i + 1;
        }
        None
    }

    /// Reads through `handle` into `buf` from the handle's position, which
    /// moves past what was read. An unknown handle is `InvalidDescriptor`,
    /// one not opened for reading `PermissionDenied`.
    pub fn read<D: BlockIo>(&mut self, dev: &mut D, handle: FileHandle, buf: &mut [u8]) -> (r: Result<usize, VfsError>)
        requires
            old(self).io_ready(),
        ensures
            final(self).io_ready(),
            *final(self) == (DunitFs { handles: final(self).handles, ..*old(self) }),
            same_blocks(*final(dev), *old(dev)),
            final(buf)@.len() == old(buf)@.len(),
            (forall|j: int| 0 <= j < old(self).handles@.len() ==> (#[trigger] old(self).handles@[j]).0 != handle)
                ==> r == Err::<usize, VfsError>(VfsError::InvalidDescriptor) && *final(self) == *old(self),
            forall|k: int| #[trigger] first_handle_at(old(self).handles@, handle, k) ==> {
                let hv = old(self).handles@[k].1;
                let n = old(self).nodes@[hv.node as int]->Some_0;
                let name = old(self).device.name.spec_bytes();
                let len = node_read_len(n.size as int, hv.offset as int, old(buf)@.len() as int);
                &&& !flag_set(hv.flags.bits, OPEN_READ) ==> r == Err::<usize, VfsError>(VfsError::PermissionDenied) && *final(self) == *old(self)
                &&& r is Ok ==> r == Ok::<usize, VfsError>(len as usize)
                    && (forall|m: int| 0 <= m < len ==> final(buf)@[m] == #[trigger] node_bytes(*old(dev), name, old(self).partition_start, n@)[hv.offset + m])
                    && (forall|m: int| len <= m < old(buf)@.len() ==> #[trigger] final(buf)@[m] == old(buf)@[m])
                    && final(self).handles@ == old(self).handles@.update(k, (handle, OpenHandle { offset: (hv.offset + len) as usize, ..hv }))
                &&& r is Err && flag_set(hv.flags.bits, OPEN_READ) ==> r == Err::<usize, VfsError>(VfsError::IoError) && *final(self) == *old(self)
                &&& flag_set(hv.flags.bits, OPEN_READ) && faithful_run(*old(dev), name, old(self).partition_start, n@) ==> r is Ok
            },
    {
        let k = match self.handle_index(handle) {
            Some(k) => k,
            None => return Err(VfsError::InvalidDescriptor),
        };
        proof {
            assert(first_handle_at(self.handles@, handle, k as int));
        }
        if !self.handles[k].1.flags.can_read() {
            return Err(VfsError::PermissionDenied);
        }
        let node = self.handles[k].1.node;
        let offset = self.handles[k].1.offset;
        let flags = self.handles[k].1.flags;
        proof {
            assert(self.handles@[k as int].1.node < self.nodes@.len());
        }
        let n = match self.read_node(dev, node, offset, buf) {
            Ok(n) => n,
            Err(e) => return Err(e),
        };
        proof {
            let sz = self.nodes@[node as int]->Some_0.size;
            assert(sizes_fit(self.nodes@));
            assert(sz <= usize::MAX);
            assert(offset + n <= usize::MAX);
        }
        let ghost h0 = self.handles@;
        self.handles.set(k, (handle, OpenHandle { node, offset: offset + n, flags }));
        proof {
            assert forall|j: int| 0 <= j < self.handles@.len() implies (#[trigger] self.handles@[j]).1.node < self.nodes@.len()
                && self.nodes@[self.handles@[j].1.node as int] is Some
                && self.nodes@[self.handles@[j].1.node as int]->Some_0.file_type == FileType::File by {
                assert(h0[j].1.node < self.nodes@.len());
            }
        }
        Ok(n)
    }
}

impl DunitFs {
    /// Writes `buf` through `handle`: at the end of the file for a handle
    /// opened to append, else at the handle's position; the position then
    /// stands after what was written. An unknown handle is
    /// `InvalidDescriptor`, one not opened for writing `PermissionDenied`.
    pub fn write<D: BlockIo>(&mut self, dev: &mut D, handle: FileHandle, buf: &[u8]) -> (r: Result<usize, VfsError>)
        requires
            old(self).io_ready(),
        ensures
            final(self).io_ready(),
            final(self).device == old(self).device,
            final(self).partition_start == old(self).partition_start,
            final(self).partition_blocks == old(self).partition_blocks,
            final(self).next_handle == old(self).next_handle,
            (forall|j: int| 0 <= j < old(self).handles@.len() ==> (#[trigger] old(self).handles@[j]).0 != handle)
                ==> r == Err::<usize, VfsError>(VfsError::InvalidDescriptor) && *final(self) == *old(self) && same_blocks(*final(dev), *old(dev)),
            forall|k: int| #[trigger] first_handle_at(old(self).handles@, handle, k) ==> {
                let hv = old(self).handles@[k].1;
                let idx = hv.node as int;
                let n = old(self).nodes@[idx]->Some_0;
                let name = old(self).device.name.spec_bytes();
                let start = old(self).partition_start;
                let pos = if flag_set(hv.flags.bits, OPEN_APPEND) { n.size as int } else { hv.offset as int };
                &&& !flag_set(hv.flags.bits, OPEN_WRITE) ==> r == Err::<usize, VfsError>(VfsError::PermissionDenied)
                    && *final(self) == *old(self) && same_blocks(*final(dev), *old(dev))
                &&& flag_set(hv.flags.bits, OPEN_WRITE) && r is Err ==> r == Err::<usize, VfsError>(VfsError::IoError)
                &&& r is Ok ==> r == Ok::<usize, VfsError>(buf@.len() as usize)
                    && final(self).nodes@[idx] is Some
                    && node_written(node_bytes(*old(dev), name, start, n@), node_bytes(*final(dev), name, start, final(self).nodes@[idx]->Some_0@), pos, buf@)
                    && final(self).handles@ == old(self).handles@.update(k, (handle, OpenHandle { offset: (pos + buf@.len()) as usize, ..hv }))
                &&& forall|j: int| 0 <= j < old(self).nodes@.len() && j != idx ==> #[trigger] final(self).nodes@[j] == old(self).nodes@[j]
                &&& forall|j: int| 0 <= j < old(self).nodes@.len() && j != idx && (#[trigger] old(self).nodes@[j]) is Some
                    ==> node_bytes(*final(dev), name, start, old(self).nodes@[j]->Some_0@) == node_bytes(*old(dev), name, start, old(self).nodes@[j]->Some_0@)
            },
    {
        let k = match self.handle_index(handle) {
            Some(k) => k,
            None => return Err(VfsError::InvalidDescriptor),
        };
        proof {
            assert(first_handle_at(self.handles@, handle, k as int));
        }
        if !self.handles[k].1.flags.can_write() {
            return Err(VfsError::PermissionDenied);
        }
        let node = self.handles[k].1.node;
        let flags = self.handles[k].1.flags;
        proof {
            assert(self.handles@[k as int].1.node < self.nodes@.len());
            assert(sizes_fit(self.nodes@));
        }
        let offset: usize = if flags.append() {
            match &self.nodes[node] {
                Some(n) => n.size as usize,
                None => return Err(VfsError::NotFound),
            }
        } else {
            self.handles[k].1.offset
        };
        let ghost nodes0 = self.nodes@;
        let ghost h0 = self.handles@;
        let written = match self.write_node(dev, node, offset, buf) {
            Ok(w) => w,
            Err(e) => {
                proof {
                    lemma_write_keeps_ready(nodes0, self.nodes@, h0, node as int, offset as int, buf@.len() as int, self.partition_blocks);
                }
                return Err(e);
            },
        };
        proof {
            lemma_write_keeps_ready(nodes0, self.nodes@, h0, node as int, offset as int, buf@.len() as int, self.partition_blocks);
        }
        self.handles.set(k, (handle, OpenHandle { node, offset: offset + written, flags }));
        proof {
            assert forall|j: int| 0 <= j < self.handles@.len() implies (#[trigger] self.handles@[j]).1.node < self.nodes@.len()
                && self.nodes@[self.handles@[j].1.node as int] is Some
                && self.nodes@[self.handles@[j].1.node as int]->Some_0.file_type == FileType::File by {
                assert(h0[j].1.node < self.nodes@.len());
            }
        }
        Ok(written)
    }

    /// Closes `handle`; an unknown handle is `InvalidDescriptor`.
    pub fn close(&mut self, handle: FileHandle) -> (r: Result<(), VfsError>)
        requires
            old(self).io_ready(),
        ensures
            final(self).io_ready(),
            *final(self) == (DunitFs { handles: final(self).handles, ..*old(self) }),
            (forall|j: int| 0 <= j < old(self).handles@.len() ==> (#[trigger] old(self).handles@[j]).0 != handle)
                ==> r == Err::<(), VfsError>(VfsError::InvalidDescriptor) && *final(self) == *old(self),
            forall|k: int| #[trigger] first_handle_at(old(self).handles@, handle, k) ==>
                r is Ok && final(self).handles@ == old(self).handles@.remove(k),
    {
        let k = match self.handle_index(handle) {
            Some(k) => k,
            None => return Err(VfsError::InvalidDescriptor),
        };
        proof {
            assert(first_handle_at(self.handles@, handle, k as int));
        }
        let ghost h0 = self.handles@;
        let _ = self.handles.remove(k);
        proof {
            assert forall|j: int| 0 <= j < self.handles@.len() implies (#[trigger] self.handles@[j]).1.node < self.nodes@.len()
                && self.nodes@[self.handles@[j].1.node as int] is Some
                && self.nodes@[self.handles@[j].1.node as int]->Some_0.file_type == FileType::File by {
                if j < k {
                    assert(self.handles@[j] == h0[j]);
                } else {
                    assert(self.handles@[j] == h0[j + 1]);
                }
            }
        }
        Ok(())
    }

    /// The type and size of what `path` names: the root is a directory of
    /// size zero; a missing path is `NotFound`.
    pub fn stat(&self, path: &[u8]) -> (r: Result<FileStat, VfsError>)
        requires
            sizes_fit(self.nodes@),
        ensures
            clean(path@).len() == 0 ==> r == Ok::<FileStat, VfsError>(FileStat { file_type: FileType::Directory, size: 0 }),
            clean(path@).len() != 0 ==> (r is Err <==> forall|j: int| 0 <= j < self.nodes@.len() ==> !holds_path(#[trigger] self.nodes@[j], clean(path@))),
            r is Err ==> r == Err::<FileStat, VfsError>(VfsError::NotFound),
            clean(path@).len() != 0 && r is Ok ==> exists|i: int| 0 <= i < self.nodes@.len() && holds_path(#[trigger] self.nodes@[i], clean(path@))
                && (forall|j: int| 0 <= j < i ==> !holds_path(#[trigger] self.nodes@[j], clean(path@)))
                && r == Ok::<FileStat, VfsError>(FileStat { file_type: self.nodes@[i]->Some_0.file_type, size: self.nodes@[i]->Some_0.size as usize }),
    {
        let c = clean_path(path);
        if c.len() == 0 {
            return Ok(FileStat { file_type: FileType::Directory, size: 0 });
        }
        let i = match self.node_index(path) {
            Some(i) => i,
            None => return Err(VfsError::NotFound),
        };
        match &self.nodes[i] {
            Some(n) => {
                proof {
                    assert(n.size <= usize::MAX);
                }
                Ok(FileStat { file_type: n.file_type, size: n.size as usize })
            },
            None => Err(VfsError::NotFound),
        }
    }
}

/// A write through a handle on file slot `idx` keeps every handle on a
/// file and every size within `usize`.
proof fn lemma_write_keeps_ready(n0: Seq<Option<Node>>, n1: Seq<Option<Node>>, hs: Seq<(FileHandle, OpenHandle)>, idx: int, offset: int, len: int, pb: u64)
    requires
        handles_on_files(n0, hs),
        sizes_fit(n0),
        0 <= idx < n0.len(),
        n0[idx] is Some,
        n1.len() == n0.len(),
        forall|j: int| 0 <= j < n0.len() && j != idx ==> n1[j] == n0[j],
        n1[idx] is Some,
        n1[idx]->Some_0@.file_type == n0[idx]->Some_0@.file_type,
        n1[idx]->Some_0@.size == n0[idx]->Some_0@.size || (n1[idx]->Some_0@.size == offset + len && offset + len <= usize::MAX),
    ensures
        handles_on_files(n1, hs),
        sizes_fit(n1),
{
    assert forall|k: int| 0 <= k < hs.len() implies (#[trigger] hs[k]).1.node < n1.len()
        && n1[hs[k].1.node as int] is Some && n1[hs[k].1.node as int]->Some_0.file_type == FileType::File by {
        assert(hs[k].1.node < n0.len());
    }
    assert forall|i: int| 0 <= i < n1.len() && (#[trigger] n1[i]) is Some implies n1[i]->Some_0.size <= usize::MAX by {
        if i != idx {
            assert(n1[i] == n0[i]);
        }
    }
}

/// Keeps a handle unless it is open on node slot `i`.
pub open spec fn not_on_slot(i: usize) -> spec_fn((FileHandle, OpenHandle)) -> bool {
    |e: (FileHandle, OpenHandle)| e.1.node != i
}

/// `o` with its run and size cleared.
pub open spec fn emptied(o: NodeInfo) -> NodeInfo {
    NodeInfo { size: 0, first_block: 0, block_count: 0, ..o }
}

impl DunitFs {
    /// Empties the file at `path`: its size and run become zero and its
    /// entry is stored. A missing path is `NotFound`, a directory
    /// `IsADirectory`.
    pub fn truncate<D: BlockIo>(&mut self, dev: &mut D, path: &[u8]) -> (r: Result<(), VfsError>)
        requires
            old(self).io_ready(),
        ensures
            final(self).io_ready(),
            *final(self) == (DunitFs { nodes: final(self).nodes, ..*old(self) }),
            (forall|j: int| 0 <= j < old(self).nodes@.len() ==> !holds_path(#[trigger] old(self).nodes@[j], clean(path@)))
                ==> r == Err::<(), VfsError>(VfsError::NotFound) && *final(self) == *old(self) && *final(dev) == *old(dev),
            forall|i: int| 0 <= i < old(self).nodes@.len() && holds_path(#[trigger] old(self).nodes@[i], clean(path@))
                && (forall|j: int| 0 <= j < i ==> !holds_path(#[trigger] old(self).nodes@[j], clean(path@))) ==> {
                let n = old(self).nodes@[i]->Some_0;
                &&& n.file_type != FileType::File ==> r == Err::<(), VfsError>(VfsError::IsADirectory) && *final(self) == *old(self) && *final(dev) == *old(dev)
                &&& n.file_type == FileType::File ==> final(self).nodes@.len() == old(self).nodes@.len()
                    && (forall|j: int| 0 <= j < old(self).nodes@.len() && j != i ==> #[trigger] final(self).nodes@[j] == old(self).nodes@[j])
                    && final(self).nodes@[i] is Some && final(self).nodes@[i]->Some_0@ == emptied(n@)
                    && (r is Err ==> r == Err::<(), VfsError>(VfsError::IoError))
                    && forall|d: Seq<u8>, l: u64| !(d == old(self).device.name.spec_bytes() && l == old(self).partition_start + METADATA_START + i / 4)
                        ==> #[trigger] final(dev).block_at(d, l) == old(dev).block_at(d, l)
            },
    {
        let i = match self.node_index(path) {
            Some(i) => i,
            None => return Err(VfsError::NotFound),
        };
        let is_file = match &self.nodes[i] {
            Some(n) => n.file_type == FileType::File,
            None => false,
        };
        if !is_file {
            return Err(VfsError::IsADirectory);
        }
        let ghost n0 = self.nodes@;
        let ghost h0 = self.handles@;
        self.set_run(i, 0, 0);
        self.set_size(i, 0);
        proof {
            let n1 = self.nodes@;
            assert(node_valid(n0[i as int]->Some_0@, self.partition_blocks));
            assert(n1[i as int]->Some_0@ == emptied(n0[i as int]->Some_0@));
            assert forall|a: int| 0 <= a < n1.len() && (#[trigger] n1[a]) is Some implies node_valid(n1[a]->Some_0@, self.partition_blocks) by {
                if a != i {
                    assert(n1[a] == n0[a]);
                }
            }
            assert forall|a: int, b: int| 0 <= a < n1.len() && 0 <= b < n1.len() && a != b && (#[trigger] n1[a]) is Some
                && (#[trigger] n1[b]) is Some implies !runs_overlap(n1[a]->Some_0@, n1[b]->Some_0@) by {
                assert(n0[a] is Some && n0[b] is Some);
                assert(!runs_overlap(n0[a]->Some_0@, n0[b]->Some_0@));
            }
            assert forall|k: int| 0 <= k < h0.len() implies (#[trigger] h0[k]).1.node < n1.len()
                && n1[h0[k].1.node as int] is Some && n1[h0[k].1.node as int]->Some_0.file_type == FileType::File by {
                assert(h0[k].1.node < n0.len());
            }
            assert forall|a: int| 0 <= a < n1.len() && (#[trigger] n1[a]) is Some implies n1[a]->Some_0.size <= usize::MAX by {
                if a != i {
                    assert(n1[a] == n0[a]);
                }
            }
        }
        self.persist_node(dev, i)
    }

    /// Removes the file at `path` and closes every handle open on it; the
    /// emptied slot is stored. A missing path is `NotFound`, a directory or
    /// device `IsADirectory`.
    pub fn remove<D: BlockIo>(&mut self, dev: &mut D, path: &[u8]) -> (r: Result<(), VfsError>)
        requires
            old(self).io_ready(),
        ensures
            final(self).io_ready(),
            final(self).device == old(self).device,
            final(self).partition_start == old(self).partition_start,
            final(self).partition_blocks == old(self).partition_blocks,
            final(self).next_handle == old(self).next_handle,
            (forall|j: int| 0 <= j < old(self).nodes@.len() ==> !holds_path(#[trigger] old(self).nodes@[j], clean(path@)))
                ==> r == Err::<(), VfsError>(VfsError::NotFound) && *final(self) == *old(self) && *final(dev) == *old(dev),
            forall|i: int| 0 <= i < old(self).nodes@.len() && holds_path(#[trigger] old(self).nodes@[i], clean(path@))
                && (forall|j: int| 0 <= j < i ==> !holds_path(#[trigger] old(self).nodes@[j], clean(path@))) ==> {
                let n = old(self).nodes@[i]->Some_0;
                &&& n.file_type != FileType::File ==> r == Err::<(), VfsError>(VfsError::IsADirectory) && *final(self) == *old(self) && *final(dev) == *old(dev)
                &&& n.file_type == FileType::File ==> final(self).nodes@ == old(self).nodes@.update(i, None)
                    && final(self).handles@ == old(self).handles@.filter(not_on_slot(i as usize))
                    && (r is Err ==> r == Err::<(), VfsError>(VfsError::IoError))
                    && forall|d: Seq<u8>, l: u64| !(d == old(self).device.name.spec_bytes() && l == old(self).partition_start + METADATA_START + i / 4)
                        ==> #[trigger] final(dev).block_at(d, l) == old(dev).block_at(d, l)
            },
    {
        let i = match self.node_index(path) {
            Some(i) => i,
            None => return Err(VfsError::NotFound),
        };
        let is_file = match &self.nodes[i] {
            Some(n) => n.file_type == FileType::File,
            None => false,
        };
        if !is_file {
            return Err(VfsError::IsADirectory);
        }
        let ghost n0 = self.nodes@;
        let ghost h0 = self.handles@;
        self.nodes.set(i, None);
        let mut kept: Vec<(FileHandle, OpenHandle)> = Vec::new();
        let mut j: usize = 0;
        while j < self.handles.len()
            invariant
                j <= self.handles@.len(),
                self.handles@ == h0,
                kept@ == h0.take(j as int).filter(not_on_slot(i)),
            decreases self.handles@.len() - j,
        {
            let e = (self.handles[j].0, OpenHandle { node: self.handles[j].1.node, offset: self.handles[j].1.offset, flags: self.handles[j].1.flags });
            proof {
                assert(h0.take(j as int + 1) =~= h0.take(j as int).push(h0[j as int]));
                h0.take(j as int).lemma_filter_push(h0[j as int], not_on_slot(i));
            }
            if e.1.node != i {
                kept.push(e);
            }
            j = j + 1;
        }
        proof {
            assert(h0.take(h0.len() as int) =~= h0);
        }
        self.handles = kept;
        proof {
            let n1 = self.nodes@;
            let h1 = self.handles@;
            assert(n1 =~= n0.update(i as int, None));
            assert forall|a: int| 0 <= a < n1.len() && (#[trigger] n1[a]) is Some implies node_valid(n1[a]->Some_0@, self.partition_blocks) by {
                assert(n1[a] == n0[a]);
            }
            assert forall|a: int, b: int| 0 <= a < n1.len() && 0 <= b < n1.len() && a != b && (#[trigger] n1[a]) is Some
                && (#[trigger] n1[b]) is Some implies !runs_overlap(n1[a]->Some_0@, n1[b]->Some_0@) by {
                assert(n1[a] == n0[a] && n1[b] == n0[b]);
            }
            assert forall|k: int| 0 <= k < h1.len() implies (#[trigger] h1[k]).1.node < n1.len()
                && n1[h1[k].1.node as int] is Some && n1[h1[k].1.node as int]->Some_0.file_type == FileType::File by {
                h0.lemma_filter_contains_rev(not_on_slot(i), h1[k]);
                assert(h1.contains(h1[k]));
                h0.filter_lemma(not_on_slot(i));
                let m = choose|m: int| 0 <= m < h0.len() && h0[m] == h1[k];
                assert(h0[m].1.node < n0.len());
                assert(h1[k].1.node != i);
            }
            assert forall|a: int| 0 <= a < n1.len() && (#[trigger] n1[a]) is Some implies n1[a]->Some_0.size <= usize::MAX by {
                assert(n1[a] == n0[a]);
            }
        }
        self.persist_node(dev, i)
    }
}

impl DunitFs {
    /// Opens the file at `path` and returns a new handle on it: with the
    /// create flag a missing file is created first; the truncate flag
    /// empties the file; the handle starts at the end of the file with the
    /// append flag, else at its start. Invalid flags are
    /// `PermissionDenied`, a missing path without the create flag
    /// `NotFound`, a directory `IsADirectory`.
    pub fn open<D: BlockIo>(&mut self, dev: &mut D, path: &[u8], flags: OpenFlags) -> (r: Result<FileHandle, VfsError>)
        requires
            old(self).io_ready(),
            old(self).next_handle < usize::MAX,
        ensures
            final(self).io_ready(),
            final(self).device == old(self).device,
            final(self).partition_start == old(self).partition_start,
            final(self).partition_blocks == old(self).partition_blocks,
            !flags_valid(flags.bits) ==> r == Err::<FileHandle, VfsError>(VfsError::PermissionDenied) && *final(self) == *old(self) && *final(dev) == *old(dev),
            flags_valid(flags.bits) && !flag_set(flags.bits, OPEN_CREATE)
                && (forall|j: int| 0 <= j < old(self).nodes@.len() ==> !holds_path(#[trigger] old(self).nodes@[j], clean(path@)))
                ==> r == Err::<FileHandle, VfsError>(VfsError::NotFound) && *final(self) == *old(self) && *final(dev) == *old(dev),
            r is Err ==> final(self).handles == old(self).handles && final(self).next_handle == old(self).next_handle,
            r matches Ok(h) ==> {
                let e = final(self).handles@.last();
                let i = e.1.node as int;
                let n = final(self).nodes@[i]->Some_0;
                &&& h == old(self).next_handle
                &&& final(self).next_handle == h + 1
                &&& final(self).handles@ == old(self).handles@.push(e)
                &&& e.0 == h && e.1.flags == flags
                &&& i < final(self).nodes@.len()
                &&& holds_path(final(self).nodes@[i], clean(path@))
                &&& forall|j: int| 0 <= j < i ==> !holds_path(#[trigger] final(self).nodes@[j], clean(path@))
                &&& n.file_type == FileType::File
                &&& flag_set(flags.bits, OPEN_TRUNC) ==> n.size == 0
                &&& e.1.offset == if flag_set(flags.bits, OPEN_APPEND) { n.size as int } else { 0 }
                &&& !flag_set(flags.bits, OPEN_TRUNC) && (exists|j: int| 0 <= j < old(self).nodes@.len() && holds_path(#[trigger] old(self).nodes@[j], clean(path@)))
                    ==> final(self).nodes == old(self).nodes && *final(dev) == *old(dev)
            },
    {
        if !flags.is_valid() {
            return Err(VfsError::PermissionDenied);
        }
        let c = clean_path(path);
        proof {
            crate::fs::memfs::lemma_clean_idempotent(path@);
        }
        let i = match self.node_index(c.as_slice()) {
            Some(i) => i,
            None => {
                if !flags.create() {
                    return Err(VfsError::NotFound);
                }
                let ghost n0 = self.nodes@;
                proof {
                    assert forall|a: int| 0 <= a < n0.len() implies slot_storable(#[trigger] n0[a]) by {
                        if n0[a] is Some {
                            assert(node_valid(n0[a]->Some_0@, self.partition_blocks));
                        }
                    }
                }
                let created = self.create_node(dev, c.as_slice(), FileType::File);
                proof {
                    let n1 = self.nodes@;
                    if n1 != n0 {
                        let k = first_free_slot(n0);
                        assert(n1 == n0.update(k, n1[k]));
                        assert forall|a: int| 0 <= a < n1.len() && (#[trigger] n1[a]) is Some implies node_valid(n1[a]->Some_0@, self.partition_blocks) by {
                            if a != k {
                                assert(n1[a] == n0[a]);
                            }
                        }
                        assert forall|a: int, b: int| 0 <= a < n1.len() && 0 <= b < n1.len() && a != b && (#[trigger] n1[a]) is Some
                            && (#[trigger] n1[b]) is Some implies !runs_overlap(n1[a]->Some_0@, n1[b]->Some_0@) by {
                            if a != k && b != k {
                                assert(n1[a] == n0[a] && n1[b] == n0[b]);
                            }
                        }
                        assert forall|q: int| 0 <= q < self.handles@.len() implies (#[trigger] self.handles@[q]).1.node < n1.len()
                            && n1[self.handles@[q].1.node as int] is Some && n1[self.handles@[q].1.node as int]->Some_0.file_type == FileType::File by {
                            assert(n0[self.handles@[q].1.node as int] is Some);
                        }
                        assert forall|a: int| 0 <= a < n1.len() && (#[trigger] n1[a]) is Some implies n1[a]->Some_0.size <= usize::MAX by {
                            if a != k {
                                assert(n1[a] == n0[a]);
                            }
                        }
                    }
                }
                match created {
                    Ok(()) => {},
                    Err(e) => return Err(e),
                }
                match self.node_index(c.as_slice()) {
                    Some(i) => i,
                    None => return Err(VfsError::IoError),
                }
            },
        };
        let is_file = match &self.nodes[i] {
            Some(n) => n.file_type == FileType::File,
            None => false,
        };
        if !is_file {
            return Err(VfsError::IsADirectory);
        }
        if flags.trunc() {
            match self.truncate(dev, c.as_slice()) {
                Ok(()) => {},
                Err(e) => return Err(e),
            }
        }
        let offset: usize = if flags.append() {
            match &self.nodes[i] {
                Some(n) => n.size as usize,
                None => return Err(VfsError::NotFound),
            }
        } else {
            0
        };
        let handle = self.next_handle;
        self.next_handle = handle + 1;
        self.handles.push((handle, OpenHandle { node: i, offset, flags }));
        Ok(handle)
    }
}

} // verus!
