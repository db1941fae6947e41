//! The memory-backed root file system: a flat list of nodes keyed by their
//! slash-trimmed path below a fixed set of top-level directories.
use vstd::prelude::*;
use vstd::string::StringSliceAdditionalSpecFns;
use crate::fs::vfs::{
    DirEntry, FileDescriptor, FileHandle, FileStat, FileSystem, FileType, OpenFlags, VfsError, VirtualFileSystem, flag_set, flags_valid,
    HandleModel, read_part, opened, was_read, was_written, listed,
    cut_name, dir_entry_name, OPEN_READ, OPEN_WRITE, OPEN_CREATE, OPEN_TRUNC, OPEN_APPEND,
};

verus! {

pub open spec fn is_slash(b: u8) -> bool {
    b == 47u8
}

/// `p` without its leading slashes.
pub open spec fn strip_leading(p: Seq<u8>) -> Seq<u8>
    decreases p.len(),
{
    if p.len() > 0 && is_slash(p[0]) {
        strip_leading(p.drop_first())
    } else {
        p
    }
}

/// `p` without its trailing slashes.
pub open spec fn strip_trailing(p: Seq<u8>) -> Seq<u8>
    decreases p.len(),
{
    if p.len() > 0 && is_slash(p.last()) {
        strip_trailing(p.drop_last())
    } else {
        p
    }
}

/// A path with every leading and trailing slash removed: the key under which
/// a node is stored.
pub open spec fn clean(p: Seq<u8>) -> Seq<u8> {
    strip_trailing(strip_leading(p))
}

/// Whether `p` holds a slash.
pub open spec fn has_slash(p: Seq<u8>) -> bool {
    exists|j: int| 0 <= j < p.len() && is_slash(p[j])
}

/// Index of the last slash of `p`, or -1.
pub open spec fn last_slash(p: Seq<u8>) -> int
    decreases p.len(),
{
    if p.len() == 0 {
        -1
    } else if is_slash(p.last()) {
        p.len() - 1
    } else {
        last_slash(p.drop_last())
    }
}

/// The directory part of a path, cleaned: empty for a top-level name.
pub open spec fn parent_path(p: Seq<u8>) -> Seq<u8> {
    let c = clean(p);
    let i = last_slash(c);
    if i >= 0 { c.subrange(0, i) } else { Seq::empty() }
}

/// The last component of a path, cleaned.
pub open spec fn basename(p: Seq<u8>) -> Seq<u8> {
    let c = clean(p);
    let i = last_slash(c);
    if i >= 0 { c.subrange(i + 1, c.len() as int) } else { c }
}

/// Whether `child` names an entry directly inside `parent`.
pub open spec fn is_direct_child(parent: Seq<u8>, child: Seq<u8>) -> bool {
    let p = clean(parent);
    let c = clean(child);
    if p.len() == 0 {
        c.len() > 0 && !has_slash(c)
    } else {
        &&& c.len() > p.len()
        &&& c.subrange(0, p.len() as int) == p
        &&& is_slash(c[p.len() as int])
        &&& !has_slash(c.subrange(p.len() as int + 1, c.len() as int))
    }
}

/// The top-level directories that always exist.
pub open spec fn base_dirs() -> Seq<Seq<u8>> {
    seq![
        "kernel".spec_bytes(),
        "proc".spec_bytes(),
        "app".spec_bytes(),
        "assets".spec_bytes(),
        "dev".spec_bytes(),
        "cfg".spec_bytes(),
        "usr".spec_bytes(),
        "tmp".spec_bytes(),
    ]
}

/// Whether the cleaned path names one of the fixed top-level directories.
pub open spec fn is_base_dir(p: Seq<u8>) -> bool {
    base_dirs().contains(clean(p))
}

proof fn lemma_strip_leading(p: Seq<u8>, k: int)
    requires
        0 <= k <= p.len(),
        forall|j: int| 0 <= j < k ==> is_slash(#[trigger] p[j]),
        k == p.len() || !is_slash(p[k]),
    ensures
        strip_leading(p) == p.subrange(k, p.len() as int),
    decreases k,
{
    if k == 0 {
        assert(p.subrange(0, p.len() as int) =~= p);
    } else {
        let q = p.drop_first();
        assert forall|j: int| 0 <= j < k - 1 implies is_slash(#[trigger] q[j]) by {
            assert(q[j] == p[j + 1]);
        }
        lemma_strip_leading(q, k - 1);
        assert(q.subrange(k - 1, q.len() as int) =~= p.subrange(k, p.len() as int));
    }
}

proof fn lemma_strip_trailing(p: Seq<u8>, e: int)
    requires
        0 <= e <= p.len(),
        forall|j: int| e <= j < p.len() ==> is_slash(#[trigger] p[j]),
        e == 0 || !is_slash(p[e - 1]),
    ensures
        strip_trailing(p) == p.subrange(0, e),
    decreases p.len() - e,
{
    if e == p.len() {
        assert(p.subrange(0, e) =~= p);
    } else {
        let q = p.drop_last();
        assert forall|j: int| e <= j < q.len() implies is_slash(#[trigger] q[j]) by {
            assert(q[j] == p[j]);
        }
        lemma_strip_trailing(q, e);
        assert(q.subrange(0, e) =~= p.subrange(0, e));
    }
}

proof fn lemma_last_slash(p: Seq<u8>, k: int)
    requires
        -1 <= k < p.len(),
        k >= 0 ==> is_slash(p[k]),
        forall|j: int| k < j < p.len() ==> !is_slash(#[trigger] p[j]),
    ensures
        last_slash(p) == k,
    decreases p.len(),
{
    if p.len() > 0 && k < p.len() - 1 {
        let q = p.drop_last();
        assert forall|j: int| k < j < q.len() implies !is_slash(#[trigger] q[j]) by {
            assert(q[j] == p[j]);
        }
        lemma_last_slash(q, k);
    }
}

/// Contents of a node: bytes the file system owns, or a read-only image
/// built into the kernel.
pub enum MemData {
    Owned(Vec<u8>),
    Static(&'static [u8]),
}

/// A file, directory or device, keyed by its cleaned path.
pub struct MemNode {
    pub path: Vec<u8>,
    pub file_type: FileType,
    pub data: MemData,
}

/// An open file: the node's path, the position and the open flags.
pub struct OpenMemHandle {
    pub path: Vec<u8>,
    pub offset: usize,
    pub flags: OpenFlags,
}

/// The memory file system: nodes, open handles and the next handle number.
pub struct MemFs {
    pub nodes: Vec<MemNode>,
    pub next_handle: usize,
    pub open_handles: Vec<(FileHandle, OpenMemHandle)>,
}


/// A node as plain values: cleaned path, type, contents, and whether the
/// contents are a read-only built-in image.
#[verifier::ext_equal]
pub struct NodeView {
    pub path: Seq<u8>,
    pub file_type: FileType,
    pub data: Seq<u8>,
    pub fixed: bool,
}

/// An open handle as plain values.
#[verifier::ext_equal]
pub struct HandleView {
    pub id: FileHandle,
    pub path: Seq<u8>,
    pub offset: usize,
    pub flags: OpenFlags,
}

/// The whole file system as plain values.
#[verifier::ext_equal]
pub struct MemFsView {
    pub nodes: Seq<NodeView>,
    pub handles: Seq<HandleView>,
    pub next_handle: usize,
}

impl MemData {
    pub open spec fn bytes(&self) -> Seq<u8> {
        match self {
            MemData::Owned(v) => v@,
            MemData::Static(s) => s@,
        }
    }

    pub open spec fn is_static(&self) -> bool {
        self is Static
    }
}

impl View for MemNode {
    type V = NodeView;

    open spec fn view(&self) -> NodeView {
        NodeView { path: self.path@, file_type: self.file_type, data: self.data.bytes(), fixed: self.data.is_static() }
    }
}

impl View for MemFs {
    type V = MemFsView;

    open spec fn view(&self) -> MemFsView {
        MemFsView {
            nodes: self.nodes@.map_values(|n: MemNode| n@),
            handles: self.open_handles@.map_values(|e: (FileHandle, OpenMemHandle)| handle_view(e)),
            next_handle: self.next_handle,
        }
    }
}

/// An open-handle entry as plain values.
pub open spec fn handle_view(e: (FileHandle, OpenMemHandle)) -> HandleView {
    HandleView { id: e.0, path: e.1.path@, offset: e.1.offset, flags: e.1.flags }
}

/// `i` is the first node stored under `c`.
pub open spec fn is_first_node(nodes: Seq<NodeView>, c: Seq<u8>, i: int) -> bool {
    &&& 0 <= i < nodes.len()
    &&& nodes[i].path == c
    &&& forall|j: int| 0 <= j < i ==> (#[trigger] nodes[j]).path != c
}

/// Position of the first node stored under the cleaned form of `p`.
pub open spec fn find_node(nodes: Seq<NodeView>, p: Seq<u8>) -> Option<int> {
    let c = clean(p);
    if exists|i: int| is_first_node(nodes, c, i) {
        Some(choose|i: int| is_first_node(nodes, c, i))
    } else {
        None
    }
}

/// `k` is the first handle numbered `h`.
pub open spec fn is_first_handle(hs: Seq<HandleView>, h: FileHandle, k: int) -> bool {
    &&& 0 <= k < hs.len()
    &&& hs[k].id == h
    &&& forall|j: int| 0 <= j < k ==> (#[trigger] hs[j]).id != h
}

/// Position of the first open handle numbered `h`.
pub open spec fn find_handle(hs: Seq<HandleView>, h: FileHandle) -> Option<int> {
    if exists|k: int| is_first_handle(hs, h, k) {
        Some(choose|k: int| is_first_handle(hs, h, k))
    } else {
        None
    }
}

/// The type of what `p` names: the root and the top-level directories are
/// directories; other paths are looked up among the nodes.
pub open spec fn node_type(v: MemFsView, p: Seq<u8>) -> Option<FileType> {
    let c = clean(p);
    if c.len() == 0 || is_base_dir(c) {
        Some(FileType::Directory)
    } else {
        match find_node(v.nodes, c) {
            Some(i) => Some(v.nodes[i].file_type),
            None => None,
        }
    }
}

/// Whether the directory that would hold `p` exists.
pub open spec fn parent_exists(v: MemFsView, p: Seq<u8>) -> bool {
    node_type(v, parent_path(p)) == Some(FileType::Directory)
}

/// A new node of type `t` under the cleaned path `c`, with empty contents.
pub open spec fn empty_node(c: Seq<u8>, t: FileType) -> NodeView {
    NodeView { path: c, file_type: t, data: Seq::empty(), fixed: false }
}

/// Adds an empty node of type `t` at `p`: refused for the root, for a path
/// that exists and below a directory that does not.
pub open spec fn add_node_spec(v: MemFsView, p: Seq<u8>, t: FileType) -> (Result<(), VfsError>, MemFsView) {
    let c = clean(p);
    if c.len() == 0 {
        (Err(VfsError::InvalidPath), v)
    } else if node_type(v, c) is Some {
        (Err(VfsError::AlreadyExists), v)
    } else if !parent_exists(v, c) {
        (Err(VfsError::NotFound), v)
    } else {
        (Ok(()), MemFsView { nodes: v.nodes.push(empty_node(c, t)), ..v })
    }
}

/// `v` with the contents of node `i` replaced.
pub open spec fn with_data(v: MemFsView, i: int, data: Seq<u8>, fixed: bool) -> MemFsView {
    MemFsView { nodes: v.nodes.update(i, NodeView { data, fixed, ..v.nodes[i] }), ..v }
}

/// Empties the file at `p`; built-in images cannot be emptied.
pub open spec fn truncate_spec(v: MemFsView, p: Seq<u8>) -> (Result<(), VfsError>, MemFsView) {
    let c = clean(p);
    if c.len() == 0 {
        (Err(VfsError::InvalidPath), v)
    } else {
        match find_node(v.nodes, c) {
            None => (Err(VfsError::NotFound), v),
            Some(i) => if v.nodes[i].file_type != FileType::File {
                (Err(VfsError::IsADirectory), v)
            } else if v.nodes[i].fixed {
                (Err(VfsError::PermissionDenied), v)
            } else {
                (Ok(()), with_data(v, i, Seq::empty(), false))
            },
        }
    }
}

/// The handles that stay open when the file at `c` is removed.
pub open spec fn handles_not_on(hs: Seq<HandleView>, c: Seq<u8>) -> Seq<HandleView> {
    hs.filter_map(keep_unless_on(c))
}

/// Keeps a handle unless it is open on `c`.
pub open spec fn keep_unless_on(c: Seq<u8>) -> spec_fn(HandleView) -> Option<HandleView> {
    |hv: HandleView| if hv.path != c { Some(hv) } else { None }
}

/// Removes the file at `p` and closes every handle open on it.
pub open spec fn remove_spec(v: MemFsView, p: Seq<u8>) -> (Result<(), VfsError>, MemFsView) {
    let c = clean(p);
    if c.len() == 0 {
        (Err(VfsError::InvalidPath), v)
    } else {
        match find_node(v.nodes, c) {
            None => (Err(VfsError::NotFound), v),
            Some(i) => if v.nodes[i].file_type != FileType::File {
                (Err(VfsError::IsADirectory), v)
            } else {
                (Ok(()), MemFsView { nodes: v.nodes.remove(i), handles: handles_not_on(v.handles, c), ..v })
            },
        }
    }
}

/// Type and size of what `p` names.
pub open spec fn stat_spec(v: MemFsView, p: Seq<u8>) -> Result<FileStat, VfsError> {
    let c = clean(p);
    if c.len() == 0 || is_base_dir(c) {
        Ok(FileStat { file_type: FileType::Directory, size: 0 })
    } else {
        match find_node(v.nodes, c) {
            None => Err(VfsError::NotFound),
            Some(i) => Ok(FileStat { file_type: v.nodes[i].file_type, size: v.nodes[i].data.len() as usize }),
        }
    }
}


/// Bytes `data` extended with zeros to at least `end` bytes.
pub open spec fn zero_fill(data: Seq<u8>, end: int) -> Seq<u8> {
    if end > data.len() { data + Seq::new((end - data.len()) as nat, |i: int| 0u8) } else { data }
}

/// `data` after `buf` is written at `off`, growing with zeros where needed.
pub open spec fn write_into(data: Seq<u8>, off: int, buf: Seq<u8>) -> Seq<u8> {
    let d = zero_fill(data, off + buf.len());
    d.subrange(0, off) + buf + d.subrange(off + buf.len(), d.len() as int)
}

/// How many bytes a read of at most `cap` bytes at `off` gets from `len`.
pub open spec fn read_len(len: int, off: int, cap: int) -> int {
    if off >= len { 0 } else if cap < len - off { cap } else { len - off }
}

/// `v` with handle `k` moved to `offset`.
pub open spec fn with_offset(v: MemFsView, k: int, offset: usize) -> MemFsView {
    MemFsView { handles: v.handles.update(k, HandleView { offset, ..v.handles[k] }), ..v }
}

/// The handle number after `h`, wrapping.
pub open spec fn next_handle_after(h: usize) -> usize {
    if h == usize::MAX { 0 } else { (h + 1) as usize }
}

/// Opens `p`: with `OPEN_CREATE` a missing file is created first; only
/// files can be opened; `OPEN_TRUNC` empties the file (it needs write
/// access and an owned file); `OPEN_APPEND` starts at the end.
pub open spec fn open_spec(v: MemFsView, p: Seq<u8>, flags: OpenFlags) -> (Result<FileHandle, VfsError>, MemFsView) {
    if !flags_valid(flags.bits) {
        (Err(VfsError::InvalidPath), v)
    } else {
        let created = if node_type(v, p) is None && flag_set(flags.bits, OPEN_CREATE) {
            add_node_spec(v, p, FileType::File)
        } else {
            (Ok(()), v)
        };
        let v1 = created.1;
        if created.0 is Err {
            (Err(created.0->Err_0), v1)
        } else {
            match node_type(v1, p) {
                None => (Err(VfsError::NotFound), v1),
                Some(FileType::Directory) => (Err(VfsError::IsADirectory), v1),
                Some(FileType::Device) => (Err(VfsError::Unsupported), v1),
                Some(FileType::File) => match find_node(v1.nodes, p) {
                    None => (Err(VfsError::NotFound), v1),
                    Some(i) => {
                        let trunc = flag_set(flags.bits, OPEN_TRUNC);
                        if trunc && !flag_set(flags.bits, OPEN_WRITE) {
                            (Err(VfsError::PermissionDenied), v1)
                        } else if trunc && v1.nodes[i].fixed {
                            (Err(VfsError::PermissionDenied), v1)
                        } else {
                            let v2 = if trunc { with_data(v1, i, Seq::empty(), false) } else { v1 };
                            let offset = if flag_set(flags.bits, OPEN_APPEND) { v2.nodes[i].data.len() as usize } else { 0usize };
                            let h = v.next_handle;
                            (Ok(h), MemFsView {
                                handles: v2.handles.push(HandleView { id: h, path: clean(p), offset, flags }),
                                next_handle: next_handle_after(h),
                                ..v2
                            })
                        }
                    },
                },
            }
        }
    }
}

/// Reads at most `cap` bytes through handle `h` and advances it.
pub open spec fn read_spec(v: MemFsView, h: FileHandle, cap: int) -> (Result<usize, VfsError>, MemFsView) {
    match find_handle(v.handles, h) {
        None => (Err(VfsError::InvalidDescriptor), v),
        Some(k) => {
            let hv = v.handles[k];
            if !flag_set(hv.flags.bits, OPEN_READ) {
                (Err(VfsError::PermissionDenied), v)
            } else {
                match find_node(v.nodes, hv.path) {
                    None => (Err(VfsError::NotFound), v),
                    Some(i) => if v.nodes[i].file_type != FileType::File {
                        (Err(VfsError::IsADirectory), v)
                    } else {
                        let n = read_len(v.nodes[i].data.len() as int, hv.offset as int, cap);
                        (Ok(n as usize), with_offset(v, k, (hv.offset + n) as usize))
                    },
                }
            }
        },
    }
}

/// The bytes a successful read of at most `cap` bytes through `h` returns.
pub open spec fn read_bytes(v: MemFsView, h: FileHandle, cap: int) -> Seq<u8> {
    let k = find_handle(v.handles, h)->Some_0;
    let hv = v.handles[k];
    let i = find_node(v.nodes, hv.path)->Some_0;
    let d = v.nodes[i].data;
    let n = read_len(d.len() as int, hv.offset as int, cap);
    if n <= 0 { Seq::empty() } else { d.subrange(hv.offset as int, hv.offset + n) }
}

/// The position a write through handle `hv` starts at.
pub open spec fn write_offset(v: MemFsView, hv: HandleView, i: int) -> int {
    if flag_set(hv.flags.bits, OPEN_APPEND) { v.nodes[i].data.len() as int } else { hv.offset as int }
}

/// Writes `buf` through handle `h`, growing the file as needed; a write that
/// would end beyond the address space fails with `IoError`.
pub open spec fn write_spec(v: MemFsView, h: FileHandle, buf: Seq<u8>) -> (Result<usize, VfsError>, MemFsView) {
    match find_handle(v.handles, h) {
        None => (Err(VfsError::InvalidDescriptor), v),
        Some(k) => {
            let hv = v.handles[k];
            if !flag_set(hv.flags.bits, OPEN_WRITE) {
                (Err(VfsError::PermissionDenied), v)
            } else {
                match find_node(v.nodes, hv.path) {
                    None => (Err(VfsError::NotFound), v),
                    Some(i) => if v.nodes[i].file_type != FileType::File {
                        (Err(VfsError::IsADirectory), v)
                    } else {
                        let off = write_offset(v, hv, i);
                        let end = off + buf.len();
                        if end > usize::MAX {
                            (Err(VfsError::IoError), v)
                        } else if v.nodes[i].fixed {
                            (Err(VfsError::PermissionDenied), v)
                        } else {
                            (Ok(buf.len() as usize),
                                with_offset(with_data(v, i, write_into(v.nodes[i].data, off, buf), false), k, end as usize))
                        }
                    },
                }
            }
        },
    }
}

/// Closes handle `h`.
pub open spec fn close_spec(v: MemFsView, h: FileHandle) -> (Result<(), VfsError>, MemFsView) {
    match find_handle(v.handles, h) {
        None => (Err(VfsError::InvalidDescriptor), v),
        Some(k) => (Ok(()), MemFsView { handles: v.handles.remove(k), ..v }),
    }
}


/// A caller's buffer after a read has put `bytes` at its start.
pub open spec fn filled(buf: Seq<u8>, bytes: Seq<u8>) -> Seq<u8> {
    bytes + buf.subrange(bytes.len() as int, buf.len() as int)
}


/// The entry a node contributes to its directory's listing.
pub open spec fn entry_of(n: NodeView) -> (Seq<u8>, FileType) {
    (basename(n.path), n.file_type)
}

/// Nodes listed at the root: top-level names that are not one of the fixed
/// directories (those are listed first).
pub open spec fn root_child(n: NodeView) -> Option<(Seq<u8>, FileType)> {
    if is_direct_child(Seq::empty(), n.path) && !is_base_dir(n.path) { Some(entry_of(n)) } else { None }
}

/// The selection of nodes listed at the root.
pub open spec fn root_filter() -> spec_fn(NodeView) -> Option<(Seq<u8>, FileType)> {
    |n: NodeView| root_child(n)
}

/// Nodes listed in the directory `c`.
pub open spec fn child_of(c: Seq<u8>) -> spec_fn(NodeView) -> Option<(Seq<u8>, FileType)> {
    |n: NodeView| if is_direct_child(c, n.path) { Some(entry_of(n)) } else { None }
}

/// The fixed top-level directories as listing entries.
pub open spec fn base_entries() -> Seq<(Seq<u8>, FileType)> {
    base_dirs().map_values(|d: Seq<u8>| (d, FileType::Directory))
}

/// The names and types a directory listing of `p` holds, in order; `None`
/// when `p` is not a directory.
pub open spec fn listing(v: MemFsView, p: Seq<u8>) -> Option<Seq<(Seq<u8>, FileType)>> {
    let c = clean(p);
    if c.len() == 0 {
        Some(base_entries() + v.nodes.filter_map(root_filter()))
    } else if node_type(v, c) != Some(FileType::Directory) {
        None
    } else {
        Some(v.nodes.filter_map(child_of(c)))
    }
}

/// A directory entry holding the (cut) name and type of `x`.
pub open spec fn entry_matches(e: DirEntry, x: (Seq<u8>, FileType)) -> bool {
    &&& e.name_len <= 64
    &&& dir_entry_name(e) == cut_name(x.0)
    &&& e.file_type == x.1
}

/// `entries` holds the first `count` entries of `l` in order.
pub open spec fn lists_prefix(entries: Seq<DirEntry>, l: Seq<(Seq<u8>, FileType)>, count: int) -> bool {
    forall|j: int| 0 <= j < count ==> entry_matches(#[trigger] entries[j], l[j])
}


/// Counters of the memory file system.
#[derive(Debug, Clone, Copy, PartialEq, Eq, Structural)]
pub struct MemFsStats {
    pub files: u64,
    pub directories: u64,
    pub bytes: u64,
    pub open_handles: u64,
}

/// `a + b` wrapping at 2^64.
pub open spec fn wrap_add(a: u64, b: u64) -> u64 {
    if a + b > u64::MAX { (a + b - 0x1_0000_0000_0000_0000) as u64 } else { (a + b) as u64 }
}

/// The counters over `nodes`: files and their bytes, and directories on top
/// of the fixed ones; every counter wraps at 2^64.
pub open spec fn node_stats(nodes: Seq<NodeView>) -> MemFsStats
    decreases nodes.len(),
{
    if nodes.len() == 0 {
        MemFsStats { files: 0, directories: 8, bytes: 0, open_handles: 0 }
    } else {
        let prev = node_stats(nodes.drop_last());
        let n = nodes.last();
        match n.file_type {
            FileType::File => MemFsStats {
                files: wrap_add(prev.files, 1),
                bytes: wrap_add(prev.bytes, n.data.len() as u64),
                ..prev
            },
            FileType::Directory => MemFsStats { directories: wrap_add(prev.directories, 1), ..prev },
            FileType::Device => prev,
        }
    }
}

/// The built-in image stored at `name`, if that node holds one.
pub open spec fn static_image(v: MemFsView, name: Seq<u8>) -> Option<Seq<u8>> {
    match find_node(v.nodes, name) {
        Some(i) => if v.nodes[i].fixed { Some(v.nodes[i].data) } else { None },
        None => None,
    }
}

/// Adds a file at `name` if it can be created, then gives the node stored
/// there the contents `data`.
pub open spec fn add_file_spec(v: MemFsView, name: Seq<u8>, data: Seq<u8>, fixed: bool) -> MemFsView {
    let v1 = add_node_spec(v, name, FileType::File).1;
    match find_node(v1.nodes, name) {
        Some(i) => with_data(v1, i, data, fixed),
        None => v1,
    }
}

/// Turns the node at `name` into an empty device node, adding it when its
/// directory exists.
pub open spec fn add_device_spec(v: MemFsView, name: Seq<u8>) -> MemFsView {
    let c = clean(name);
    if c.len() == 0 || !parent_exists(v, c) {
        v
    } else {
        match find_node(v.nodes, c) {
            Some(i) => MemFsView { nodes: v.nodes.update(i, NodeView { file_type: FileType::Device, data: Seq::empty(), fixed: false, ..v.nodes[i] }), ..v },
            None => MemFsView { nodes: v.nodes.push(empty_node(c, FileType::Device)), ..v },
        }
    }
}

/// Whether two byte strings are equal.
pub fn bytes_eq(a: &[u8], b: &[u8]) -> (r: bool)
    ensures
        r == (a@ == b@),
{
    if a.len() != b.len() {
        return false;
    }
    let mut i: usize = 0;
    while i < a.len()
        invariant
            a@.len() == b@.len(),
            i <= a@.len(),
            forall|j: int| 0 <= j < i ==> a@[j] == b@[j],
        decreases a.len() - i,
    {
        if a[i] != b[i] {
            return false;
        }
        i = i + 1;
    }
    assert(a@ =~= b@);
    true
}

/// Copies `p[start..end]`.
pub fn copy_range(p: &[u8], start: usize, end: usize) -> (r: Vec<u8>)
    requires
        start <= end <= p@.len(),
    ensures
        r@ == p@.subrange(start as int, end as int),
{
    let mut out: Vec<u8> = Vec::new();
    let mut i = start;
    while i < end
        invariant
            start <= i <= end <= p@.len(),
            out@ == p@.subrange(start as int, i as int),
        decreases end - i,
    {
        out.push(p[i]);
        assert(out@ =~= p@.subrange(start as int, i + 1));
        i = i + 1;
    }
    out
}

/// Whether `p[from..]` holds a slash.
fn has_slash_from(p: &[u8], from: usize) -> (r: bool)
    requires
        from <= p@.len(),
    ensures
        r == has_slash(p@.subrange(from as int, p@.len() as int)),
{
    let ghost s = p@.subrange(from as int, p@.len() as int);
    let mut i = from;
    while i < p.len()
        invariant
            from <= i <= p@.len(),
            s == p@.subrange(from as int, p@.len() as int),
            forall|j: int| from <= j < i ==> !is_slash(#[trigger] p@[j]),
        decreases p.len() - i,
    {
        if p[i] == 47u8 {
            assert(is_slash(s[i - from]));
            return true;
        }
        i = i + 1;
    }
    assert forall|j: int| 0 <= j < s.len() implies !is_slash(#[trigger] s[j]) by {
        assert(s[j] == p@[j + from]);
    }
    false
}

/// Index of the last slash, if any.
pub(crate) fn find_last_slash(p: &[u8]) -> (r: Option<usize>)
    ensures
        r is None ==> last_slash(p@) == -1,
        r matches Some(i) ==> i < p@.len() && last_slash(p@) == i,
{
    let mut i = p.len();
    while i > 0
        invariant
            i <= p@.len(),
            forall|j: int| i <= j < p@.len() ==> !is_slash(#[trigger] p@[j]),
        decreases i,
    {
        if p[i - 1] == 47u8 {
            proof {
                lemma_last_slash(p@, i - 1);
            }
            return Some(i - 1);
        }
        i = i - 1;
    }
    proof {
        lemma_last_slash(p@, -1);
    }
    None
}


/// The slash-trimmed form of `p`.
pub fn clean_path(p: &[u8]) -> (r: Vec<u8>)
    ensures
        r@ == clean(p@),
{
    let mut s: usize = 0;
    while s < p.len() && p[s] == 47u8
        invariant
            s <= p@.len(),
            forall|j: int| 0 <= j < s ==> is_slash(#[trigger] p@[j]),
        decreases p.len() - s,
    {
        s = s + 1;
    }
    let mut e: usize = p.len();
    while e > s && p[e - 1] == 47u8
        invariant
            s <= e <= p@.len(),
            forall|j: int| e <= j < p@.len() ==> is_slash(#[trigger] p@[j]),
        decreases e - s,
    {
        e = e - 1;
    }
    proof {
        lemma_strip_leading(p@, s as int);
        let q = p@.subrange(s as int, p@.len() as int);
        assert forall|j: int| e - s <= j < q.len() implies is_slash(#[trigger] q[j]) by {
            assert(q[j] == p@[j + s]);
        }
        if e - s > 0 {
            assert(q[e - s - 1] == p@[e - 1]);
        }
        lemma_strip_trailing(q, e - s);
        assert(q.subrange(0, e - s) =~= p@.subrange(s as int, e as int));
    }
    copy_range(p, s, e)
}

/// Whether an already cleaned path is one of the top-level directories.
fn is_base_name(c: &[u8]) -> (r: bool)
    ensures
        r == base_dirs().contains(c@),
{
    let names: [&str; 8] = ["kernel", "proc", "app", "assets", "dev", "cfg", "usr", "tmp"];
    let ghost dirs = base_dirs();
    let mut i: usize = 0;
    while i < 8
        invariant
            i <= 8,
            dirs == base_dirs(),
            names@.len() == 8,
            forall|k: int| 0 <= k < 8 ==> (#[trigger] names@[k]).spec_bytes() == dirs[k],
            forall|k: int| 0 <= k < i ==> dirs[k] != c@,
        decreases 8 - i,
    {
        let name = names[i];
        if bytes_eq(name.as_bytes(), c) {
            assert(dirs[i as int] == c@);
            return true;
        }
        i = i + 1;
    }
    assert(!dirs.contains(c@));
    false
}

impl MemFs {
    /// The slash-trimmed form of a path.
    pub fn clean(path: &[u8]) -> (r: Vec<u8>)
        ensures
            r@ == clean(path@),
    {
        clean_path(path)
    }

    /// Whether `path` names one of the fixed top-level directories.
    pub fn is_base_dir(path: &[u8]) -> (r: bool)
        ensures
            r == is_base_dir(path@),
    {
        let c = clean_path(path);
        is_base_name(c.as_slice())
    }

    /// The directory part of `path`.
    pub fn parent_path(path: &[u8]) -> (r: Vec<u8>)
        ensures
            r@ == parent_path(path@),
    {
        let c = clean_path(path);
        match find_last_slash(c.as_slice()) {
            Some(i) => copy_range(c.as_slice(), 0, i),
            None => Vec::new(),
        }
    }

    /// The last component of `path`.
    pub fn basename(path: &[u8]) -> (r: Vec<u8>)
        ensures
            r@ == basename(path@),
    {
        let c = clean_path(path);
        let n = c.len();
        let found = find_last_slash(c.as_slice());
        match found {
            Some(i) => {
                assert(i < n);
                copy_range(c.as_slice(), i + 1, n)
            },
            None => c,
        }
    }

    /// Whether `child` is an entry directly inside `parent`.
    pub fn is_direct_child(parent: &[u8], child: &[u8]) -> (r: bool)
        ensures
            r == is_direct_child(parent@, child@),
    {
        let p = clean_path(parent);
        let c = clean_path(child);
        if p.len() == 0 {
            let sl = has_slash_from(c.as_slice(), 0);
            proof {
                assert(c@.subrange(0, c@.len() as int) =~= c@);
            }
            c.len() > 0 && !sl
        } else {
            if c.len() <= p.len() {
                return false;
            }
            let prefix = copy_range(c.as_slice(), 0, p.len());
            if !bytes_eq(prefix.as_slice(), p.as_slice()) {
                return false;
            }
            if c[p.len()] != 47u8 {
                return false;
            }
            !has_slash_from(c.as_slice(), p.len() + 1)
        }
    }
}


proof fn lemma_first_node_unique(nodes: Seq<NodeView>, c: Seq<u8>, i: int, j: int)
    requires
        is_first_node(nodes, c, i),
        is_first_node(nodes, c, j),
    ensures
        i == j,
{
    if i < j {
        assert(nodes[i].path != c);
    } else if j < i {
        assert(nodes[j].path != c);
    }
}

proof fn lemma_first_handle_unique(hs: Seq<HandleView>, h: FileHandle, i: int, j: int)
    requires
        is_first_handle(hs, h, i),
        is_first_handle(hs, h, j),
    ensures
        i == j,
{
    if i < j {
        assert(hs[i].id != h);
    } else if j < i {
        assert(hs[j].id != h);
    }
}

/// Node lookup only depends on the paths: nodes with the same paths find
/// the same node.
pub proof fn lemma_find_node_paths(a: Seq<NodeView>, b: Seq<NodeView>, p: Seq<u8>)
    requires
        a.len() == b.len(),
        forall|j: int| 0 <= j < a.len() ==> (#[trigger] a[j]).path == b[j].path,
    ensures
        find_node(a, p) == find_node(b, p),
{
    let c = clean(p);
    if exists|i: int| is_first_node(a, c, i) {
        let i = choose|i: int| is_first_node(a, c, i);
        assert forall|j: int| 0 <= j < i implies (#[trigger] b[j]).path != c by {
            assert(a[j].path == b[j].path);
        }
        assert(is_first_node(b, c, i));
        let k = choose|k: int| is_first_node(b, c, k);
        lemma_first_node_unique(b, c, i, k);
    } else {
        if exists|i: int| is_first_node(b, c, i) {
            let i = choose|i: int| is_first_node(b, c, i);
            assert forall|j: int| 0 <= j < i implies (#[trigger] a[j]).path != c by {
                assert(a[j].path == b[j].path);
            }
            assert(is_first_node(a, c, i));
        }
    }
}

impl MemData {
    pub fn len(&self) -> (r: usize)
        ensures
            r == self.bytes().len(),
    {
        match self {
            MemData::Owned(v) => v.len(),
            MemData::Static(d) => d.len(),
        }
    }

    pub fn as_slice(&self) -> (r: &[u8])
        ensures
            r@ == self.bytes(),
    {
        match self {
            MemData::Owned(v) => v.as_slice(),
            MemData::Static(d) => d,
        }
    }
}

impl MemFs {
    /// Position of the first node stored under the cleaned `path`.
    pub fn node_index(&self, path: &[u8]) -> (r: Option<usize>)
        ensures
            r is None ==> find_node(self@.nodes, path@) is None,
            r matches Some(i) ==> find_node(self@.nodes, path@) == Some(i as int),
    {
        let c = clean_path(path);
        let ghost nodes = self@.nodes;
        let mut i: usize = 0;
        while i < self.nodes.len()
            invariant
                nodes == self@.nodes,
                nodes.len() == self.nodes@.len(),
                c@ == clean(path@),
                i <= nodes.len(),
                forall|j: int| 0 <= j < i ==> (#[trigger] nodes[j]).path != c@,
            decreases self.nodes.len() - i,
        {
            if bytes_eq(self.nodes[i].path.as_slice(), c.as_slice()) {
                proof {
                    assert(is_first_node(nodes, c@, i as int));
                    let k = choose|k: int| is_first_node(nodes, c@, k);
                    lemma_first_node_unique(nodes, c@, i as int, k);
                }
                return Some(i);
            }
            i = i + 1;
        }
        None
    }

    /// Position of the first open handle numbered `handle`.
    pub fn handle_index(&self, handle: FileHandle) -> (r: Option<usize>)
        ensures
            r is None ==> find_handle(self@.handles, handle) is None,
            r matches Some(k) ==> find_handle(self@.handles, handle) == Some(k as int),
    {
        let ghost hs = self@.handles;
        let mut k: usize = 0;
        while k < self.open_handles.len()
            invariant
                hs == self@.handles,
                hs.len() == self.open_handles@.len(),
                k <= hs.len(),
                forall|j: int| 0 <= j < k ==> (#[trigger] hs[j]).id != handle,
            decreases self.open_handles.len() - k,
        {
            if self.open_handles[k].0 == handle {
                proof {
                    assert(is_first_handle(hs, handle, k as int));
                    let m = choose|m: int| is_first_handle(hs, handle, m);
                    lemma_first_handle_unique(hs, handle, k as int, m);
                }
                return Some(k);
            }
            k = k + 1;
        }
        None
    }

    /// The type of what `path` names.
    pub fn node_type(&self, path: &[u8]) -> (r: Option<FileType>)
        ensures
            r == node_type(self@, path@),
    {
        let c = clean_path(path);
        if c.len() == 0 || MemFs::is_base_dir(c.as_slice()) {
            return Some(FileType::Directory);
        }
        proof {
            assert(clean(path@) == c@);
        }
        match self.node_index(c.as_slice()) {
            Some(i) => Some(self.nodes[i].file_type),
            None => None,
        }
    }

    /// Whether the directory that would hold `path` exists.
    pub fn parent_exists(&self, path: &[u8]) -> (r: bool)
        ensures
            r == parent_exists(self@, path@),
    {
        let parent = MemFs::parent_path(path);
        match self.node_type(parent.as_slice()) {
            Some(FileType::Directory) => true,
            _ => false,
        }
    }
}


impl MemFs {
    /// Adds an empty node of type `t` at `path`.
    fn add_node(&mut self, path: &[u8], t: FileType) -> (r: Result<(), VfsError>)
        ensures
            r == add_node_spec(old(self)@, path@, t).0,
            final(self)@ == add_node_spec(old(self)@, path@, t).1,
    {
        let c = clean_path(path);
        if c.len() == 0 {
            return Err(VfsError::InvalidPath);
        }
        if self.node_type(c.as_slice()).is_some() {
            return Err(VfsError::AlreadyExists);
        }
        if !self.parent_exists(c.as_slice()) {
            return Err(VfsError::NotFound);
        }
        let ghost c0 = c@;
        self.nodes.push(MemNode { path: c, file_type: t, data: MemData::Owned(Vec::new()) });
        proof {
            let n = empty_node(c0, t);
            assert(self@.nodes =~= old(self)@.nodes.push(n));
            assert(self@ =~= MemFsView { nodes: old(self)@.nodes.push(n), ..old(self)@ });
        }
        Ok(())
    }
}


impl MemFs {
    /// Replaces the contents of node `i` by an empty owned buffer.
    fn clear_node(&mut self, i: usize)
        requires
            i < old(self)@.nodes.len(),
        ensures
            final(self)@ == with_data(old(self)@, i as int, Seq::empty(), false),
    {
        let ghost nodes0 = self.nodes@;
        self.nodes[i].data = MemData::Owned(Vec::new());
        proof {
            let v = old(self)@;
            assert(self@.nodes =~= v.nodes.update(i as int, NodeView { data: Seq::empty(), fixed: false, ..v.nodes[i as int] }));
            assert(self@ =~= with_data(v, i as int, Seq::empty(), false));
        }
    }

    /// Whether node `i` holds a built-in image.
    fn node_is_static(&self, i: usize) -> (r: bool)
        requires
            i < self@.nodes.len(),
        ensures
            r == self@.nodes[i as int].fixed,
    {
        match self.nodes[i].data {
            MemData::Static(_) => true,
            MemData::Owned(_) => false,
        }
    }

    /// The handles that stay open once the file at `c` is gone.
    fn drop_handles_on(&mut self, c: &[u8])
        ensures
            final(self)@ == (MemFsView { handles: handles_not_on(old(self)@.handles, c@), ..old(self)@ }),
    {
        let ghost hs = old(self)@.handles;
        let ghost f = keep_unless_on(c@);
        let mut kept: Vec<(FileHandle, OpenMemHandle)> = Vec::new();
        let mut old_handles: Vec<(FileHandle, OpenMemHandle)> = Vec::new();
        core::mem::swap(&mut old_handles, &mut self.open_handles);
        let ghost src = old_handles@;
        assert forall|j: int| 0 <= j < src.len() implies hs[j] == handle_view(#[trigger] src[j]) by {}
        let mut k: usize = 0;
        while k < old_handles.len()
            invariant
                old_handles@ == src,
                hs.len() == src.len(),
                forall|j: int| 0 <= j < src.len() ==> hs[j] == handle_view(#[trigger] src[j]),
                k <= src.len(),
                kept@.map_values(|e: (FileHandle, OpenMemHandle)| handle_view(e)) == hs.take(k as int).filter_map(f),
                f == keep_unless_on(c@),
                self.nodes == old(self).nodes,
                self.next_handle == old(self).next_handle,
            decreases old_handles.len() - k,
        {
            let ghost t = hs.take(k as int + 1);
            proof {
                assert(t.drop_last() =~= hs.take(k as int));
                assert(t.last() == hs[k as int]);
                assert(hs[k as int] == handle_view(src[k as int]));
            }
            if !bytes_eq(old_handles[k].1.path.as_slice(), c) {
                let e = (old_handles[k].0, OpenMemHandle {
                    path: old_handles[k].1.path.clone(),
                    offset: old_handles[k].1.offset,
                    flags: old_handles[k].1.flags,
                });
                proof {
                    assert(handle_view(src[k as int]) =~= handle_view(e));
                    assert(f(hs[k as int]) == Some(handle_view(e)));
                    assert(t.filter_map(f) == t.drop_last().filter_map(f) + seq![handle_view(e)]);
                }
                let ghost before = kept@;
                kept.push(e);
                proof {
                    assert(kept@.map_values(|e: (FileHandle, OpenMemHandle)| handle_view(e)) =~=
                        before.map_values(|e: (FileHandle, OpenMemHandle)| handle_view(e)).push(handle_view(e)));
                    assert(t.filter_map(f) =~= hs.take(k as int).filter_map(f).push(handle_view(e)));
                }
            } else {
                proof {
                    assert(hs[k as int].path == c@);
                    assert(f(hs[k as int]) is None);
                    assert(t.filter_map(f) == t.drop_last().filter_map(f));
                }
            }
            k = k + 1;
        }
        assert(hs.take(src.len() as int) =~= hs);
        self.open_handles = kept;
        assert(self@ =~= MemFsView { handles: handles_not_on(hs, c@), ..old(self)@ });
    }
}


impl MemFs {
    /// Writes `buf` at `off` into the owned contents of node `i`, growing
    /// them with zeros first where needed.
    fn write_node(&mut self, i: usize, off: usize, buf: &[u8])
        requires
            i < old(self)@.nodes.len(),
            !old(self)@.nodes[i as int].fixed,
            off + buf@.len() <= usize::MAX,
        ensures
            final(self)@ == with_data(old(self)@, i as int, write_into(old(self)@.nodes[i as int].data, off as int, buf@), false),
    {
        let ghost d0 = old(self)@.nodes[i as int].data;
        let mut tmp = MemData::Owned(Vec::new());
        core::mem::swap(&mut self.nodes[i].data, &mut tmp);
        match tmp {
            MemData::Owned(mut v) => {
                assert(v@ == d0);
                let end = off + buf.len();
                if end > v.len() {
                    v.resize(end, 0u8);
                    assert forall|j: int| d0.len() <= j < end implies v@[j] == 0u8 by {
                        assert(cloned::<u8>(0u8, v@[j]));
                    }
                    assert(v@ =~= zero_fill(d0, end as int));
                } else {
                    assert(v@ =~= zero_fill(d0, end as int));
                }
                let ghost z = v@;
                let mut j: usize = 0;
                while j < buf.len()
                    invariant
                        z == zero_fill(d0, end as int),
                        end == off + buf@.len(),
                        z.len() >= end,
                        v@.len() == z.len(),
                        j <= buf@.len(),
                        forall|m: int| 0 <= m < off ==> v@[m] == z[m],
                        forall|m: int| 0 <= m < j ==> v@[off + m] == buf@[m],
                        forall|m: int| off + j <= m < z.len() ==> v@[m] == z[m],
                    decreases buf.len() - j,
                {
                    v[off + j] = buf[j];
                    j = j + 1;
                }
                assert(v@ =~= write_into(d0, off as int, buf@));
                self.nodes[i].data = MemData::Owned(v);
            },
            MemData::Static(d) => {
                self.nodes[i].data = MemData::Static(d);
            },
        }
        proof {
            let v0 = old(self)@;
            assert(self@.nodes =~= v0.nodes.update(i as int, NodeView {
                data: write_into(d0, off as int, buf@), fixed: false, ..v0.nodes[i as int] }));
            assert(self@ =~= with_data(v0, i as int, write_into(d0, off as int, buf@), false));
        }
    }

    /// Moves handle `k` to `offset`.
    fn set_offset(&mut self, k: usize, offset: usize)
        requires
            k < old(self)@.handles.len(),
        ensures
            final(self)@ == with_offset(old(self)@, k as int, offset),
    {
        self.open_handles[k].1.offset = offset;
        proof {
            let v0 = old(self)@;
            assert(self@.handles =~= v0.handles.update(k as int, HandleView { offset, ..v0.handles[k as int] }));
            assert(self@ =~= with_offset(v0, k as int, offset));
        }
    }
}


impl MemFs {
    fn read_impl(&mut self, handle: FileHandle, buf: &mut [u8]) -> (r: Result<usize, VfsError>)
        ensures
            r == read_spec(old(self)@, handle, old(buf)@.len() as int).0,
            final(self)@ == read_spec(old(self)@, handle, old(buf)@.len() as int).1,
            r is Ok ==> final(buf)@ == filled(old(buf)@, read_bytes(old(self)@, handle, old(buf)@.len() as int)),
            r is Err ==> final(buf)@ == old(buf)@,
            final(buf)@.len() == old(buf)@.len(),
    {
        let k = match self.handle_index(handle) {
            Some(k) => k,
            None => return Err(VfsError::InvalidDescriptor),
        };
        if !self.open_handles[k].1.flags.can_read() {
            return Err(VfsError::PermissionDenied);
        }
        let offset = self.open_handles[k].1.offset;
        let i = match self.node_index(self.open_handles[k].1.path.as_slice()) {
            Some(i) => i,
            None => return Err(VfsError::NotFound),
        };
        if self.nodes[i].file_type != FileType::File {
            return Err(VfsError::IsADirectory);
        }
        let data = self.nodes[i].data.as_slice();
        let ghost want = read_bytes(old(self)@, handle, old(buf)@.len() as int);
        let n: usize = if offset >= data.len() {
            0
        } else {
            let avail = data.len() - offset;
            let len = if buf.len() < avail { buf.len() } else { avail };
            let mut j: usize = 0;
            while j < len
                invariant
                    len <= buf@.len(),
                    offset + len <= data.len(),
                    buf@.len() == old(buf)@.len(),
                    j <= len,
                    forall|m: int| 0 <= m < j ==> buf@[m] == data@[offset + m],
                    forall|m: int| j <= m < buf@.len() ==> buf@[m] == old(buf)@[m],
                decreases len - j,
            {
                buf[j] = data[offset + j];
                j = j + 1;
            }
            len
        };
        proof {
            let v0 = old(self)@;
            assert(v0.handles[k as int] == handle_view(old(self).open_handles@[k as int]));
            assert(v0.handles[k as int].offset == offset);
            assert(v0.nodes[i as int] == old(self).nodes@[i as int]@);
            assert(data@ == v0.nodes[i as int].data);
            assert(n == read_len(data@.len() as int, offset as int, old(buf)@.len() as int));
            assert(find_handle(v0.handles, handle) == Some(k as int));
            assert(v0.handles[k as int].path == old(self).open_handles@[k as int].1.path@);
            assert(find_node(v0.nodes, v0.handles[k as int].path) == Some(i as int));
            if n > 0 {
                assert(want =~= data@.subrange(offset as int, offset + n));
            }
            assert(buf@ =~= filled(old(buf)@, want));
        }
        self.set_offset(k, offset + n);
        Ok(n)
    }

    fn write_impl(&mut self, handle: FileHandle, buf: &[u8]) -> (r: Result<usize, VfsError>)
        ensures
            r == write_spec(old(self)@, handle, buf@).0,
            final(self)@ == write_spec(old(self)@, handle, buf@).1,
    {
        let k = match self.handle_index(handle) {
            Some(k) => k,
            None => return Err(VfsError::InvalidDescriptor),
        };
        if !self.open_handles[k].1.flags.can_write() {
            return Err(VfsError::PermissionDenied);
        }
        let i = match self.node_index(self.open_handles[k].1.path.as_slice()) {
            Some(i) => i,
            None => return Err(VfsError::NotFound),
        };
        if self.nodes[i].file_type != FileType::File {
            return Err(VfsError::IsADirectory);
        }
        let off = if self.open_handles[k].1.flags.append() {
            self.nodes[i].data.len()
        } else {
            self.open_handles[k].1.offset
        };
        let end = match off.checked_add(buf.len()) {
            Some(e) => e,
            None => return Err(VfsError::IoError),
        };
        if self.node_is_static(i) {
            return Err(VfsError::PermissionDenied);
        }
        self.write_node(i, off, buf);
        proof {
            lemma_find_handle_data(old(self)@, i as int, write_into(old(self)@.nodes[i as int].data, off as int, buf@), handle);
        }
        self.set_offset(k, end);
        Ok(buf.len())
    }

    fn close_impl(&mut self, handle: FileHandle) -> (r: Result<(), VfsError>)
        ensures
            r == close_spec(old(self)@, handle).0,
            final(self)@ == close_spec(old(self)@, handle).1,
    {
        let k = match self.handle_index(handle) {
            Some(k) => k,
            None => return Err(VfsError::InvalidDescriptor),
        };
        self.open_handles.remove(k);
        proof {
            let v0 = old(self)@;
            assert(self@.handles =~= v0.handles.remove(k as int));
            assert(self@ =~= MemFsView { handles: v0.handles.remove(k as int), ..v0 });
        }
        Ok(())
    }

    fn truncate_impl(&mut self, path: &[u8]) -> (r: Result<(), VfsError>)
        ensures
            r == truncate_spec(old(self)@, path@).0,
            final(self)@ == truncate_spec(old(self)@, path@).1,
    {
        let c = clean_path(path);
        if c.len() == 0 {
            return Err(VfsError::InvalidPath);
        }
        let i = match self.node_index(c.as_slice()) {
            Some(i) => i,
            None => return Err(VfsError::NotFound),
        };
        if self.nodes[i].file_type != FileType::File {
            return Err(VfsError::IsADirectory);
        }
        if self.node_is_static(i) {
            return Err(VfsError::PermissionDenied);
        }
        self.clear_node(i);
        Ok(())
    }

    fn remove_impl(&mut self, path: &[u8]) -> (r: Result<(), VfsError>)
        ensures
            r == remove_spec(old(self)@, path@).0,
            final(self)@ == remove_spec(old(self)@, path@).1,
    {
        let c = clean_path(path);
        if c.len() == 0 {
            return Err(VfsError::InvalidPath);
        }
        let i = match self.node_index(c.as_slice()) {
            Some(i) => i,
            None => return Err(VfsError::NotFound),
        };
        if self.nodes[i].file_type != FileType::File {
            return Err(VfsError::IsADirectory);
        }
        self.nodes.remove(i);
        proof {
            let v0 = old(self)@;
            assert(self@.nodes =~= v0.nodes.remove(i as int));
        }
        self.drop_handles_on(c.as_slice());
        proof {
            let v0 = old(self)@;
            assert(self@ =~= MemFsView { nodes: v0.nodes.remove(i as int), handles: handles_not_on(v0.handles, c@), ..v0 });
        }
        Ok(())
    }

    fn stat_impl(&self, path: &[u8]) -> (r: Result<FileStat, VfsError>)
        ensures
            r == stat_spec(self@, path@),
    {
        let c = clean_path(path);
        if c.len() == 0 || MemFs::is_base_dir(c.as_slice()) {
            return Ok(FileStat { file_type: FileType::Directory, size: 0 });
        }
        match self.node_index(c.as_slice()) {
            Some(i) => Ok(FileStat { file_type: self.nodes[i].file_type, size: self.nodes[i].data.len() }),
            None => Err(VfsError::NotFound),
        }
    }
}

/// Replacing a node's contents keeps every lookup: handles and nodes are
/// found where they were.
proof fn lemma_find_handle_data(v: MemFsView, i: int, data: Seq<u8>, h: FileHandle)
    requires
        0 <= i < v.nodes.len(),
    ensures
        forall|p: Seq<u8>| #[trigger] find_node(with_data(v, i, data, false).nodes, p) == find_node(v.nodes, p),
{
    assert forall|p: Seq<u8>| #[trigger] find_node(with_data(v, i, data, false).nodes, p) == find_node(v.nodes, p) by {
        lemma_find_node_paths(with_data(v, i, data, false).nodes, v.nodes, p);
    }
}


impl MemFs {
    fn open_impl(&mut self, path: &[u8], flags: OpenFlags) -> (r: Result<FileHandle, VfsError>)
        ensures
            r == open_spec(old(self)@, path@, flags).0,
            final(self)@ == open_spec(old(self)@, path@, flags).1,
    {
        if !flags.is_valid() {
            return Err(VfsError::InvalidPath);
        }
        if self.node_type(path).is_none() && flags.create() {
            match self.add_node(path, FileType::File) {
                Ok(()) => {},
                Err(e) => return Err(e),
            }
        }
        let ghost v1 = self@;
        match self.node_type(path) {
            None => return Err(VfsError::NotFound),
            Some(FileType::Directory) => return Err(VfsError::IsADirectory),
            Some(FileType::Device) => return Err(VfsError::Unsupported),
            Some(FileType::File) => {},
        }
        let i = match self.node_index(path) {
            Some(i) => i,
            None => return Err(VfsError::NotFound),
        };
        if flags.trunc() {
            if !flags.can_write() {
                return Err(VfsError::PermissionDenied);
            }
            if self.node_is_static(i) {
                return Err(VfsError::PermissionDenied);
            }
            self.clear_node(i);
        }
        assert(self@.nodes.len() == self.nodes@.len());
        let handle = self.next_handle;
        self.next_handle = if handle == usize::MAX { 0 } else { handle + 1 };
        let offset = if flags.append() { self.nodes[i].data.len() } else { 0 };
        let c = clean_path(path);
        let ghost v2 = self@;
        let ghost cv = c@;
        proof {
            assert(find_node(v1.nodes, path@) == Some(i as int));
            assert(node_type(v1, path@) == Some(FileType::File));
            assert(handle == old(self)@.next_handle);
            assert(v2.nodes == (if flag_set(flags.bits, OPEN_TRUNC) { with_data(v1, i as int, Seq::empty(), false) } else { v1 }).nodes);
        }
        self.open_handles.push((handle, OpenMemHandle { path: c, offset, flags }));
        proof {
            let hv = HandleView { id: handle, path: cv, offset, flags };
            assert(self@.handles =~= v2.handles.push(hv));
            assert(self@ =~= MemFsView { handles: v2.handles.push(hv), ..v2 });
        }
        Ok(handle)
    }
}


impl MemFs {
    /// Entries for the nodes that `keep` selects, in node order.
    fn node_entries(&self, parent: &[u8], root: bool) -> (r: Vec<DirEntry>)
        ensures
            root ==> r@.len() == self@.nodes.filter_map(root_filter()).len()
                && lists_prefix(r@, self@.nodes.filter_map(root_filter()), r@.len() as int),
            !root ==> r@.len() == self@.nodes.filter_map(child_of(parent@)).len()
                && lists_prefix(r@, self@.nodes.filter_map(child_of(parent@)), r@.len() as int),
    {
        let ghost nodes = self@.nodes;
        let ghost f = if root { root_filter() } else { child_of(parent@) };
        let empty: Vec<u8> = Vec::new();
        let mut out: Vec<DirEntry> = Vec::new();
        let mut j: usize = 0;
        while j < self.nodes.len()
            invariant
                nodes == self@.nodes,
                nodes.len() == self.nodes@.len(),
                empty@.len() == 0,
                f == (if root { root_filter() } else { child_of(parent@) }),
                j <= nodes.len(),
                out@.len() == nodes.take(j as int).filter_map(f).len(),
                lists_prefix(out@, nodes.take(j as int).filter_map(f), out@.len() as int),
            decreases self.nodes.len() - j,
        {
            let ghost t = nodes.take(j as int + 1);
            let ghost prev = nodes.take(j as int).filter_map(f);
            proof {
                assert(t.drop_last() =~= nodes.take(j as int));
                assert(t.last() == nodes[j as int]);
                assert(nodes[j as int] == self.nodes@[j as int]@);
            }
            let node_path = self.nodes[j].path.as_slice();
            let listed = if root {
                MemFs::is_direct_child(empty.as_slice(), node_path) && !MemFs::is_base_dir(node_path)
            } else {
                MemFs::is_direct_child(parent, node_path)
            };
            if listed {
                let name = MemFs::basename(node_path);
                let e = DirEntry::new(name.as_slice(), self.nodes[j].file_type);
                proof {
                    assert(f(nodes[j as int]) == Some(entry_of(nodes[j as int])));
                    assert(t.filter_map(f) == prev + seq![entry_of(nodes[j as int])]);
                }
                let ghost before = out@;
                out.push(e);
                proof {
                    assert(t.filter_map(f) =~= prev.push(entry_of(nodes[j as int])));
                    assert forall|m: int| 0 <= m < out@.len() implies entry_matches(#[trigger] out@[m], t.filter_map(f)[m]) by {
                        if m < out@.len() - 1 {
                            assert(out@[m] == before[m]);
                        }
                    }
                }
            } else {
                proof {
                    assert(f(nodes[j as int]) is None);
                    assert(t.filter_map(f) == prev);
                }
            }
            j = j + 1;
        }
        assert(nodes.take(nodes.len() as int) =~= nodes);
        out
    }
}


impl MemFs {
    /// The whole listing of `path`.
    fn list_entries(&self, path: &[u8]) -> (r: Result<Vec<DirEntry>, VfsError>)
        ensures
            listing(self@, path@) is None ==> r == Err::<Vec<DirEntry>, VfsError>(VfsError::NotADirectory),
            listing(self@, path@) matches Some(l) ==> r matches Ok(v) && v@.len() == l.len()
                && lists_prefix(v@, l, l.len() as int),
    {
        let c = clean_path(path);
        if c.len() == 0 {
            let names: [&str; 8] = ["kernel", "proc", "app", "assets", "dev", "cfg", "usr", "tmp"];
            let ghost base = base_entries();
            let mut out: Vec<DirEntry> = Vec::new();
            let mut k: usize = 0;
            while k < 8
                invariant
                    k <= 8,
                    base == base_entries(),
                    names@.len() == 8,
                    forall|m: int| 0 <= m < 8 ==> (#[trigger] names@[m]).spec_bytes() == base_dirs()[m],
                    out@.len() == k,
                    lists_prefix(out@, base, k as int),
                decreases 8 - k,
            {
                let e = DirEntry::new(names[k].as_bytes(), FileType::Directory);
                let ghost before = out@;
                out.push(e);
                proof {
                    assert(base[k as int] == (base_dirs()[k as int], FileType::Directory));
                    assert forall|m: int| 0 <= m < out@.len() implies entry_matches(#[trigger] out@[m], base[m]) by {
                        if m < k {
                            assert(out@[m] == before[m]);
                        }
                    }
                }
                k = k + 1;
            }
            let rest = self.node_entries(c.as_slice(), true);
            let ghost l = base_entries() + self@.nodes.filter_map(root_filter());
            let ghost b0 = out@;
            let mut m: usize = 0;
            while m < rest.len()
                invariant
                    b0.len() == 8,
                    lists_prefix(b0, base_entries(), 8),
                    l == base_entries() + self@.nodes.filter_map(root_filter()),
                    rest@.len() == self@.nodes.filter_map(root_filter()).len(),
                    lists_prefix(rest@, self@.nodes.filter_map(root_filter()), rest@.len() as int),
                    m <= rest@.len(),
                    out@.len() == 8 + m,
                    out@.subrange(0, 8) == b0,
                    lists_prefix(out@, l, out@.len() as int),
                decreases rest.len() - m,
            {
                let ghost before = out@;
                out.push(rest[m]);
                proof {
                    assert(out@.subrange(0, 8) =~= b0);
                    assert forall|q: int| 0 <= q < out@.len() implies entry_matches(#[trigger] out@[q], l[q]) by {
                        if q < out@.len() - 1 {
                            assert(out@[q] == before[q]);
                        } else {
                            assert(out@[q] == rest@[m as int]);
                            assert(l[q] == self@.nodes.filter_map(root_filter())[m as int]);
                        }
                    }
                }
                m = m + 1;
            }
            return Ok(out);
        }
        match self.node_type(c.as_slice()) {
            Some(FileType::Directory) => {},
            _ => return Err(VfsError::NotADirectory),
        }
        Ok(self.node_entries(c.as_slice(), false))
    }

    fn readdir_into_impl(&mut self, path: &[u8], entries: &mut [DirEntry]) -> (r: Result<usize, VfsError>)
        ensures
            *final(self) == *old(self),
            final(entries)@.len() == old(entries)@.len(),
            listing(old(self)@, path@) is None ==> r == Err::<usize, VfsError>(VfsError::NotADirectory)
                && final(entries)@ == old(entries)@,
            listing(old(self)@, path@) matches Some(l) ==> {
                let count = if l.len() < old(entries)@.len() { l.len() as int } else { old(entries)@.len() as int };
                &&& r == Ok::<usize, VfsError>(count as usize)
                &&& lists_prefix(final(entries)@, l, count)
                &&& forall|j: int| count <= j < old(entries)@.len() ==> final(entries)@[j] == old(entries)@[j]
            },
    {
        let all = match self.list_entries(path) {
            Ok(v) => v,
            Err(e) => return Err(e),
        };
        let ghost l = listing(self@, path@)->Some_0;
        let count = if all.len() < entries.len() { all.len() } else { entries.len() };
        let mut j: usize = 0;
        while j < count
            invariant
                count <= all@.len(),
                count <= entries@.len(),
                entries@.len() == old(entries)@.len(),
                all@.len() == l.len(),
                lists_prefix(all@, l, l.len() as int),
                j <= count,
                lists_prefix(entries@, l, j as int),
                forall|m: int| j <= m < entries@.len() ==> entries@[m] == old(entries)@[m],
            decreases count - j,
        {
            entries[j] = all[j];
            proof {
                assert(entry_matches(all@[j as int], l[j as int]));
            }
            j = j + 1;
        }
        Ok(count)
    }

    fn readdir_impl(&mut self, path: &[u8]) -> (r: Result<Vec<DirEntry>, VfsError>)
        ensures
            *final(self) == *old(self),
            listing(old(self)@, path@) is None ==> r == Err::<Vec<DirEntry>, VfsError>(VfsError::NotADirectory),
            listing(old(self)@, path@) matches Some(l) ==> r matches Ok(v)
                && v@.len() == (if l.len() < 32 { l.len() as int } else { 32 })
                && lists_prefix(v@, l, v@.len() as int),
    {
        let all = match self.list_entries(path) {
            Ok(v) => v,
            Err(e) => return Err(e),
        };
        let ghost l = listing(self@, path@)->Some_0;
        let count = if all.len() < 32 { all.len() } else { 32 };
        let mut out: Vec<DirEntry> = Vec::new();
        let mut j: usize = 0;
        while j < count
            invariant
                count <= all@.len(),
                all@.len() == l.len(),
                lists_prefix(all@, l, l.len() as int),
                j <= count,
                out@.len() == j,
                lists_prefix(out@, l, j as int),
            decreases count - j,
        {
            let ghost before = out@;
            out.push(all[j]);
            proof {
                assert forall|m: int| 0 <= m < out@.len() implies entry_matches(#[trigger] out@[m], l[m]) by {
                    if m < j {
                        assert(out@[m] == before[m]);
                    }
                }
            }
            j = j + 1;
        }
        Ok(out)
    }
}


fn wrapping_add_u64(a: u64, b: u64) -> (r: u64)
    ensures
        r == wrap_add(a, b),
{
    if b > u64::MAX - a {
        b - (u64::MAX - a) - 1
    } else {
        a + b
    }
}

impl MemFs {
    /// A file system with only the fixed top-level directories.
    pub fn empty() -> (r: Self)
        ensures
            r@.nodes.len() == 0,
            r@.handles.len() == 0,
            r@.next_handle == 1,
    {
        MemFs { nodes: Vec::new(), next_handle: 1, open_handles: Vec::new() }
    }

    /// Same as [`MemFs::empty`].
    pub fn new() -> (r: Self)
        ensures
            r@.nodes.len() == 0,
            r@.handles.len() == 0,
            r@.next_handle == 1,
    {
        MemFs::empty()
    }

    /// Same as [`MemFs::empty`]: the base directories are implicit.
    pub fn with_base_tree() -> (r: Self)
        ensures
            r@.nodes.len() == 0,
            r@.handles.len() == 0,
            r@.next_handle == 1,
    {
        MemFs::new()
    }

    fn set_node_data(&mut self, i: usize, data: MemData)
        requires
            i < old(self)@.nodes.len(),
        ensures
            final(self)@ == with_data(old(self)@, i as int, data.bytes(), data.is_static()),
    {
        let ghost d = data;
        self.nodes[i].data = data;
        proof {
            let v0 = old(self)@;
            assert(self@.nodes =~= v0.nodes.update(i as int, NodeView { data: d.bytes(), fixed: d.is_static(), ..v0.nodes[i as int] }));
            assert(self@ =~= with_data(v0, i as int, d.bytes(), d.is_static()));
        }
    }

    /// Adds (or refills) the file `name` with `data`.
    pub fn add_file(&mut self, name: &str, data: Vec<u8>)
        ensures
            final(self)@ == add_file_spec(old(self)@, name.spec_bytes(), data@, false),
            mem_inv(old(self)@) ==> mem_inv(final(self)@),
            handles_fresh(old(self)@) ==> handles_fresh(final(self)@),
    {
        let ghost d = data@;
        let path = name.as_bytes();
        let _ = self.add_node(path, FileType::File);
        match self.node_index(path) {
            Some(i) => self.set_node_data(i, MemData::Owned(data)),
            None => {},
        }
        proof {
            if mem_inv(old(self)@) {
                lemma_inv_add_file(old(self)@, name.spec_bytes(), d, false);
            }
        }
    }

    /// Adds (or refills) the file `name` with a read-only built-in image.
    pub fn add_static_file(&mut self, name: &str, data: &'static [u8])
        ensures
            final(self)@ == add_file_spec(old(self)@, name.spec_bytes(), data@, true),
            mem_inv(old(self)@) ==> mem_inv(final(self)@),
            handles_fresh(old(self)@) ==> handles_fresh(final(self)@),
    {
        let path = name.as_bytes();
        let _ = self.add_node(path, FileType::File);
        match self.node_index(path) {
            Some(i) => self.set_node_data(i, MemData::Static(data)),
            None => {},
        }
        proof {
            if mem_inv(old(self)@) {
                lemma_inv_add_file(old(self)@, name.spec_bytes(), data@, true);
            }
        }
    }

    /// Adds a device node at `name`, or turns the node there into one.
    pub fn add_device(&mut self, name: &str)
        ensures
            final(self)@ == add_device_spec(old(self)@, name.spec_bytes()),
    {
        let c = clean_path(name.as_bytes());
        if c.len() == 0 || !self.parent_exists(c.as_slice()) {
            return;
        }
        match self.node_index(c.as_slice()) {
            Some(i) => {
                self.nodes[i].file_type = FileType::Device;
                self.nodes[i].data = MemData::Owned(Vec::new());
                proof {
                    let v0 = old(self)@;
                    assert(self@.nodes =~= v0.nodes.update(i as int, NodeView { file_type: FileType::Device, data: Seq::empty(), fixed: false, ..v0.nodes[i as int] }));
                    assert(self@ =~= MemFsView { nodes: v0.nodes.update(i as int, NodeView { file_type: FileType::Device, data: Seq::empty(), fixed: false, ..v0.nodes[i as int] }), ..v0 });
                }
            },
            None => {
                let ghost cv = c@;
                self.nodes.push(MemNode { path: c, file_type: FileType::Device, data: MemData::Owned(Vec::new()) });
                proof {
                    let v0 = old(self)@;
                    assert(self@.nodes =~= v0.nodes.push(empty_node(cv, FileType::Device)));
                    assert(self@ =~= MemFsView { nodes: v0.nodes.push(empty_node(cv, FileType::Device)), ..v0 });
                }
            },
        }
    }

    /// The built-in image stored at `name`, if that node holds one.
    pub fn static_file(&self, name: &str) -> (r: Option<&'static [u8]>)
        ensures
            static_image(self@, name.spec_bytes()) is None ==> r is None,
            static_image(self@, name.spec_bytes()) matches Some(d) ==> (r matches Some(x) && x@ == d),
    {
        let i = match self.node_index(name.as_bytes()) {
            Some(i) => i,
            None => return None,
        };
        match self.nodes[i].data {
            MemData::Static(d) => Some(d),
            MemData::Owned(_) => None,
        }
    }

    /// File, directory, byte and open-handle counters.
    pub fn stats(&self) -> (r: MemFsStats)
        ensures
            r == (MemFsStats { open_handles: self@.handles.len() as u64, ..node_stats(self@.nodes) }),
    {
        let ghost nodes = self@.nodes;
        let mut st = MemFsStats { files: 0, directories: 8, bytes: 0, open_handles: 0 };
        let mut j: usize = 0;
        while j < self.nodes.len()
            invariant
                nodes == self@.nodes,
                nodes.len() == self.nodes@.len(),
                j <= nodes.len(),
                st == node_stats(nodes.take(j as int)),
            decreases self.nodes.len() - j,
        {
            proof {
                assert(nodes.take(j as int + 1).drop_last() =~= nodes.take(j as int));
                assert(nodes[j as int] == self.nodes@[j as int]@);
            }
            match self.nodes[j].file_type {
                FileType::File => {
                    st.files = wrapping_add_u64(st.files, 1);
                    st.bytes = wrapping_add_u64(st.bytes, self.nodes[j].data.len() as u64);
                },
                FileType::Directory => {
                    st.directories = wrapping_add_u64(st.directories, 1);
                },
                FileType::Device => {},
            }
            j = j + 1;
        }
        assert(nodes.take(nodes.len() as int) =~= nodes);
        st.open_handles = self.open_handles.len() as u64;
        st
    }
}


impl FileSystem for MemFs {
    open spec fn stat_model(&self, path: Seq<u8>) -> Result<FileStat, VfsError> {
        stat_spec(self@, path)
    }

    /// Files are kept under their cleaned paths.
    open spec fn path_key(path: Seq<u8>) -> Seq<u8> {
        clean(path)
    }

    open spec fn content_model(&self, key: Seq<u8>) -> Option<Seq<u8>> {
        content_of(self@, key)
    }

    open spec fn handle_model(&self, h: FileHandle) -> Option<HandleModel> {
        handle_of(self@, h)
    }

    open spec fn next_handle_model(&self) -> FileHandle {
        self@.next_handle
    }

    open spec fn inv(&self) -> bool {
        mem_inv(self@)
    }

    open spec fn listing_model(&self, path: Seq<u8>) -> Option<Seq<(Seq<u8>, FileType)>> {
        listing(self@, path)
    }

    fn open(&mut self, path: &[u8], flags: OpenFlags) -> (r: Result<FileHandle, VfsError>)
        ensures
            r == open_spec(old(self)@, path@, flags).0,
            final(self)@ == open_spec(old(self)@, path@, flags).1,
    {
        proof {
            lemma_inv_ops(self@, path@, flags, 0, 0, Seq::empty());
        }
        proof {
            lemma_open_model(self@, path@, flags);
        }
        self.open_impl(path, flags)
    }

    fn read(&mut self, handle: FileHandle, buf: &mut [u8]) -> (r: Result<usize, VfsError>)
        ensures
            r == read_spec(old(self)@, handle, old(buf)@.len() as int).0,
            final(self)@ == read_spec(old(self)@, handle, old(buf)@.len() as int).1,
            r is Ok ==> final(buf)@ == filled(old(buf)@, read_bytes(old(self)@, handle, old(buf)@.len() as int)),
            r is Err ==> final(buf)@ == old(buf)@,
    {
        proof {
            lemma_inv_ops(self@, Seq::empty(), OpenFlags { bits: 0 }, handle, buf@.len() as int, Seq::empty());
        }
        proof {
            lemma_read_model(self@, handle, buf@.len() as int);
        }
        let r = self.read_impl(handle, buf);
        proof {
            assert forall|p: Seq<u8>| #[trigger] stat_spec(self@, p) == stat_spec(old(self)@, p) by {
                assert(self@.nodes == old(self)@.nodes);
            }
        }
        r
    }

    fn write(&mut self, handle: FileHandle, buf: &[u8]) -> (r: Result<usize, VfsError>)
        ensures
            r == write_spec(old(self)@, handle, buf@).0,
            final(self)@ == write_spec(old(self)@, handle, buf@).1,
    {
        proof {
            lemma_inv_ops(self@, Seq::empty(), OpenFlags { bits: 0 }, handle, 0, buf@);
        }
        proof {
            lemma_write_model(self@, handle, buf@);
        }
        self.write_impl(handle, buf)
    }

    fn close(&mut self, handle: FileHandle) -> (r: Result<(), VfsError>)
        ensures
            r == close_spec(old(self)@, handle).0,
            final(self)@ == close_spec(old(self)@, handle).1,
    {
        proof {
            lemma_inv_ops(self@, Seq::empty(), OpenFlags { bits: 0 }, handle, 0, Seq::empty());
        }
        self.close_impl(handle)
    }

    fn readdir(&mut self, path: &[u8]) -> (r: Result<Vec<DirEntry>, VfsError>)
        ensures
            *final(self) == *old(self),
            listing(old(self)@, path@) is None ==> r == Err::<Vec<DirEntry>, VfsError>(VfsError::NotADirectory),
            listing(old(self)@, path@) matches Some(l) ==> r matches Ok(v)
                && v@.len() == (if l.len() < 32 { l.len() as int } else { 32 })
                && lists_prefix(v@, l, v@.len() as int),
    {
        self.readdir_impl(path)
    }

    fn readdir_into(&mut self, path: &[u8], entries: &mut [DirEntry]) -> (r: Result<usize, VfsError>)
        ensures
            *final(self) == *old(self),
            listing(old(self)@, path@) is None ==> r == Err::<usize, VfsError>(VfsError::NotADirectory)
                && final(entries)@ == old(entries)@,
            listing(old(self)@, path@) matches Some(l) ==> {
                let count = if l.len() < old(entries)@.len() { l.len() as int } else { old(entries)@.len() as int };
                &&& r == Ok::<usize, VfsError>(count as usize)
                &&& lists_prefix(final(entries)@, l, count)
                &&& forall|j: int| count <= j < old(entries)@.len() ==> final(entries)@[j] == old(entries)@[j]
            },
    {
        self.readdir_into_impl(path, entries)
    }

    fn create(&mut self, path: &[u8]) -> (r: Result<(), VfsError>)
        ensures
            r == add_node_spec(old(self)@, path@, FileType::File).0,
            final(self)@ == add_node_spec(old(self)@, path@, FileType::File).1,
    {
        proof {
            lemma_inv_add_node(self@, path@, FileType::File);
        }
        proof {
            lemma_create_model(self@, path@);
        }
        let r = self.add_node(path, FileType::File);
        proof {
            if r is Ok {
                lemma_add_node_stat(old(self)@, path@, FileType::File);
            }
        }
        r
    }

    fn mkdir(&mut self, path: &[u8]) -> (r: Result<(), VfsError>)
        ensures
            r == add_node_spec(old(self)@, path@, FileType::Directory).0,
            final(self)@ == add_node_spec(old(self)@, path@, FileType::Directory).1,
    {
        proof {
            lemma_inv_add_node(self@, path@, FileType::Directory);
        }
        let r = self.add_node(path, FileType::Directory);
        proof {
            if r is Ok {
                lemma_add_node_stat(old(self)@, path@, FileType::Directory);
            }
        }
        r
    }

    fn remove(&mut self, path: &[u8]) -> (r: Result<(), VfsError>)
        ensures
            r == remove_spec(old(self)@, path@).0,
            final(self)@ == remove_spec(old(self)@, path@).1,
    {
        proof {
            lemma_inv_remove(self@, path@);
        }
        self.remove_impl(path)
    }

    fn truncate(&mut self, path: &[u8]) -> (r: Result<(), VfsError>)
        ensures
            r == truncate_spec(old(self)@, path@).0,
            final(self)@ == truncate_spec(old(self)@, path@).1,
    {
        proof {
            lemma_inv_ops(self@, path@, OpenFlags { bits: 0 }, 0, 0, Seq::empty());
        }
        proof {
            lemma_truncate_model(self@, path@);
        }
        self.truncate_impl(path)
    }

    fn stat(&mut self, path: &[u8]) -> (r: Result<FileStat, VfsError>)
        ensures
            *final(self) == *old(self),
            r == stat_spec(old(self)@, path@),
    {
        self.stat_impl(path)
    }
}

impl Default for MemFs {
    fn default() -> (r: Self)
        ensures
            r@.nodes.len() == 0,
            r@.handles.len() == 0,
            r@.next_handle == 1,
    {
        MemFs::new()
    }
}


/// A node stored under `c` means there is a first one.
proof fn lemma_first_node_exists(nodes: Seq<NodeView>, c: Seq<u8>, i: int)
    requires
        0 <= i < nodes.len(),
        nodes[i].path == c,
    ensures
        exists|j: int| is_first_node(nodes, c, j),
    decreases i,
{
    if exists|j: int| 0 <= j < i && (#[trigger] nodes[j]).path == c {
        let j = choose|j: int| 0 <= j < i && (#[trigger] nodes[j]).path == c;
        lemma_first_node_exists(nodes, c, j);
    } else {
        assert(is_first_node(nodes, c, i));
    }
}

/// Adding a node at a fresh path makes `stat` answer with its type and size
/// zero.
proof fn lemma_add_node_stat(v: MemFsView, p: Seq<u8>, t: FileType)
    requires
        add_node_spec(v, p, t).0 is Ok,
    ensures
        stat_spec(add_node_spec(v, p, t).1, p) == Ok::<FileStat, VfsError>(FileStat { file_type: t, size: 0 }),
{
    let c = clean(p);
    lemma_clean_idempotent(p);
    assert(clean(c) == c);
    assert(node_type(v, c) is None);
    assert(!is_base_dir(c));
    assert(find_node(v.nodes, c) is None);
    let n2 = v.nodes.push(empty_node(c, t));
    assert forall|i: int| 0 <= i < v.nodes.len() implies (#[trigger] v.nodes[i]).path != c by {
        if v.nodes[i].path == c {
            lemma_first_node_exists(v.nodes, c, i);
        }
    }
    assert(is_first_node(n2, c, v.nodes.len() as int)) by {
        assert forall|j: int| 0 <= j < v.nodes.len() implies (#[trigger] n2[j]).path != c by {
            assert(n2[j] == v.nodes[j]);
        }
    }
    let k = choose|i: int| is_first_node(n2, c, i);
    if k < v.nodes.len() {
        assert(n2[k] == v.nodes[k]);
    }
    assert(k == v.nodes.len());
    assert(find_node(n2, c) == Some(k));
}

proof fn lemma_strip_leading_shape(p: Seq<u8>)
    ensures
        strip_leading(p).len() == 0 || !is_slash(strip_leading(p)[0]),
    decreases p.len(),
{
    if p.len() > 0 && is_slash(p[0]) {
        lemma_strip_leading_shape(p.drop_first());
    }
}

proof fn lemma_strip_trailing_shape(s: Seq<u8>)
    ensures
        strip_trailing(s).len() <= s.len(),
        strip_trailing(s) == s.subrange(0, strip_trailing(s).len() as int),
        strip_trailing(s).len() == 0 || !is_slash(strip_trailing(s).last()),
    decreases s.len(),
{
    if s.len() > 0 && is_slash(s.last()) {
        lemma_strip_trailing_shape(s.drop_last());
        let t = strip_trailing(s.drop_last());
        assert(s.drop_last().subrange(0, t.len() as int) =~= s.subrange(0, t.len() as int));
    } else {
        assert(s.subrange(0, s.len() as int) =~= s);
    }
}

/// Cleaning a cleaned path changes nothing.
pub proof fn lemma_clean_idempotent(p: Seq<u8>)
    ensures
        clean(clean(p)) == clean(p),
{
    let q = strip_leading(p);
    let c = strip_trailing(q);
    lemma_strip_leading_shape(p);
    lemma_strip_trailing_shape(q);
    if c.len() > 0 {
        assert(c[0] == q[0]);
    }
    assert(strip_leading(c) == c);
    assert(strip_trailing(c) == c);
}

proof fn lemma_find_handle_ids(a: Seq<HandleView>, b: Seq<HandleView>, h: FileHandle)
    requires
        a.len() == b.len(),
        forall|j: int| 0 <= j < a.len() ==> (#[trigger] a[j]).id == b[j].id,
    ensures
        find_handle(a, h) == find_handle(b, h),
{
    if exists|k: int| is_first_handle(a, h, k) {
        let k = choose|k: int| is_first_handle(a, h, k);
        assert forall|j: int| 0 <= j < k implies (#[trigger] b[j]).id != h by {
            assert(a[j].id == b[j].id);
        }
        assert(is_first_handle(b, h, k));
        let m = choose|m: int| is_first_handle(b, h, m);
        lemma_first_handle_unique(b, h, k, m);
    } else {
        if exists|k: int| is_first_handle(b, h, k) {
            let k = choose|k: int| is_first_handle(b, h, k);
            assert forall|j: int| 0 <= j < k implies (#[trigger] a[j]).id != h by {
                assert(a[j].id == b[j].id);
            }
            assert(is_first_handle(a, h, k));
        }
    }
}

/// The stored bytes of the file at `p`, when `p` names a file.
pub open spec fn content_of(v: MemFsView, p: Seq<u8>) -> Option<Seq<u8>> {
    if clean(p).len() == 0 || is_base_dir(clean(p)) {
        None
    } else {
        match find_node(v.nodes, p) {
            Some(i) => if v.nodes[i].file_type == FileType::File { Some(v.nodes[i].data) } else { None },
            None => None,
        }
    }
}

/// What handle `h` is open on, as the trait's model says it.
pub open spec fn handle_of(v: MemFsView, h: FileHandle) -> Option<HandleModel> {
    match find_handle(v.handles, h) {
        Some(k) => Some(HandleModel {
            path: clean(v.handles[k].path),
            offset: v.handles[k].offset,
            append: flag_set(v.handles[k].flags.bits, OPEN_APPEND),
            read: flag_set(v.handles[k].flags.bits, OPEN_READ),
            write: flag_set(v.handles[k].flags.bits, OPEN_WRITE),
        }),
        None => None,
    }
}

/// No two nodes share a path, and every file lies below a top-level
/// directory (not at the root or at one of the fixed directories).
pub open spec fn mem_inv(v: MemFsView) -> bool {
    &&& forall|i: int, j: int| 0 <= i < v.nodes.len() && 0 <= j < v.nodes.len() && i != j ==> (#[trigger] v.nodes[i]).path != (#[trigger] v.nodes[j]).path
    &&& forall|i: int| 0 <= i < v.nodes.len() && (#[trigger] v.nodes[i]).file_type == FileType::File ==>
        v.nodes[i].path.len() > 0 && !is_base_dir(v.nodes[i].path)
}

/// No two open handles share a number.
pub open spec fn ids_distinct(hs: Seq<HandleView>) -> bool {
    forall|a: int, b: int| 0 <= a < hs.len() && 0 <= b < hs.len() && a != b ==> (#[trigger] hs[a]).id != (#[trigger] hs[b]).id
}

/// Every open handle has a number of its own, below the next number to be
/// given out. Every state reached from a new file system keeps this until
/// the handle counter wraps.
pub open spec fn handles_fresh(v: MemFsView) -> bool {
    &&& ids_distinct(v.handles)
    &&& forall|a: int| 0 <= a < v.handles.len() ==> (#[trigger] v.handles[a]).id < v.next_handle
}

/// A number at or above the next one is no open handle's.
proof fn lemma_fresh_unused(v: MemFsView, h: FileHandle)
    requires
        handles_fresh(v),
        h >= v.next_handle,
    ensures
        find_handle(v.handles, h) is None,
{
    if exists|k: int| is_first_handle(v.handles, h, k) {
        let k = choose|k: int| is_first_handle(v.handles, h, k);
        assert(v.handles[k].id < v.next_handle);
    }
}

/// Keeping the handles, or only moving one of them, keeps them fresh.
proof fn lemma_fresh_same_ids(a: MemFsView, b: MemFsView)
    requires
        handles_fresh(a),
        a.handles.len() == b.handles.len(),
        a.next_handle == b.next_handle,
        forall|j: int| 0 <= j < a.handles.len() ==> (#[trigger] b.handles[j]).id == a.handles[j].id,
    ensures
        handles_fresh(b),
{
    assert forall|i: int, j: int| 0 <= i < b.handles.len() && 0 <= j < b.handles.len() && i != j implies (#[trigger] b.handles[i]).id != (#[trigger] b.handles[j]).id by {
        assert(a.handles[i].id != a.handles[j].id);
    }
    assert forall|i: int| 0 <= i < b.handles.len() implies (#[trigger] b.handles[i]).id < b.next_handle by {
        assert(a.handles[i].id < a.next_handle);
    }
}

/// Dropping the handles open on `c` keeps the others' numbers distinct.
proof fn lemma_filter_ids_distinct(hs: Seq<HandleView>, c: Seq<u8>)
    requires
        ids_distinct(hs),
    ensures
        ids_distinct(handles_not_on(hs, c)),
    decreases hs.len(),
{
    reveal_with_fuel(Seq::filter_map, 2);
    if hs.len() > 0 {
        let rest = hs.drop_last();
        let last = hs.last();
        assert(handles_not_on(hs, c) == handles_not_on(rest, c) + (if last.path != c { seq![last] } else { Seq::empty() })) by {
            assert(hs.drop_last() =~= rest);
        }
        assert(ids_distinct(rest)) by {
            assert forall|a: int, b: int| 0 <= a < rest.len() && 0 <= b < rest.len() && a != b implies (#[trigger] rest[a]).id != (#[trigger] rest[b]).id by {
                assert(rest[a] == hs[a] && rest[b] == hs[b]);
            }
        }
        lemma_filter_ids_distinct(rest, c);
        let f = handles_not_on(rest, c);
        let t = handles_not_on(hs, c);
        if last.path != c {
            assert forall|a: int, b: int| 0 <= a < t.len() && 0 <= b < t.len() && a != b implies (#[trigger] t[a]).id != (#[trigger] t[b]).id by {
                if a < f.len() && b < f.len() {
                    assert(t[a] == f[a] && t[b] == f[b]);
                } else {
                    let m = if a < f.len() { a } else { b };
                    assert(t[m] == f[m]);
                    assert(f.contains(f[m]));
                    lemma_filter_map_kept(rest, c, f[m]);
                    let i = choose|i: int| 0 <= i < rest.len() && rest[i] == f[m];
                    assert(hs[i] == rest[i]);
                    assert(hs[hs.len() - 1] == last);
                    assert(hs[i].id != hs[hs.len() - 1].id);
                }
            }
        } else {
            assert(t =~= f);
        }
    }
}

/// Every operation keeps the handles fresh while the counter has room.
pub proof fn law_handles_stay_fresh(v: MemFsView, p: Seq<u8>, flags: OpenFlags, h: FileHandle, cap: int, buf: Seq<u8>)
    requires
        handles_fresh(v),
        v.next_handle < usize::MAX,
    ensures
        handles_fresh(open_spec(v, p, flags).1),
        handles_fresh(read_spec(v, h, cap).1),
        handles_fresh(write_spec(v, h, buf).1),
        handles_fresh(close_spec(v, h).1),
        handles_fresh(truncate_spec(v, p).1),
        handles_fresh(remove_spec(v, p).1),
{
    lemma_fresh_same_ids(v, read_spec(v, h, cap).1);
    lemma_fresh_same_ids(v, write_spec(v, h, buf).1);
    lemma_fresh_same_ids(v, truncate_spec(v, p).1);
    if close_spec(v, h).0 is Ok {
        let k = find_handle(v.handles, h)->Some_0;
        let v1 = close_spec(v, h).1;
        assert forall|a: int, b: int| 0 <= a < v1.handles.len() && 0 <= b < v1.handles.len() && a != b implies (#[trigger] v1.handles[a]).id != (#[trigger] v1.handles[b]).id by {
            let a2 = if a < k { a } else { a + 1 };
            let b2 = if b < k { b } else { b + 1 };
            assert(v1.handles[a] == v.handles[a2]);
            assert(v1.handles[b] == v.handles[b2]);
        }
        assert forall|a: int| 0 <= a < v1.handles.len() implies (#[trigger] v1.handles[a]).id < v1.next_handle by {
            let a2 = if a < k { a } else { a + 1 };
            assert(v1.handles[a] == v.handles[a2]);
        }
    }
    if remove_spec(v, p).0 is Ok {
        let v1 = remove_spec(v, p).1;
        let c = clean(p);
        lemma_filter_ids_distinct(v.handles, c);
        assert forall|a: int| 0 <= a < v1.handles.len() implies (#[trigger] v1.handles[a]).id < v1.next_handle by {
            assert(v1.handles.contains(v1.handles[a]));
            lemma_filter_map_kept(v.handles, c, v1.handles[a]);
        }
    }
    if open_spec(v, p, flags).0 is Ok {
        lemma_open_model(v, p, flags);
        let v1 = open_spec(v, p, flags).1;
        let n = v.handles.len();
        assert(v1.handles.len() == n + 1);
        assert(v1.next_handle == v.next_handle + 1);
        assert(v1.handles[n as int].id == v.next_handle);
        assert forall|a: int| 0 <= a < n implies (#[trigger] v1.handles[a]).id == v.handles[a].id by {}
        assert forall|a: int, b: int| 0 <= a < v1.handles.len() && 0 <= b < v1.handles.len() && a != b implies (#[trigger] v1.handles[a]).id != (#[trigger] v1.handles[b]).id by {
            if a < n && b < n {
                assert(v.handles[a].id != v.handles[b].id);
            } else if a < n {
                assert(v.handles[a].id < v.next_handle);
            } else {
                assert(v.handles[b].id < v.next_handle);
            }
        }
        assert forall|a: int| 0 <= a < v1.handles.len() implies (#[trigger] v1.handles[a]).id < v1.next_handle by {
            if a < n {
                assert(v.handles[a].id < v.next_handle);
            }
        }
    } else {
        lemma_fresh_same_ids(v, open_spec(v, p, flags).1);
    }
}

/// Keeping every node's path and type keeps the invariant.
proof fn lemma_inv_same_shape(a: MemFsView, b: MemFsView)
    requires
        mem_inv(a),
        a.nodes.len() == b.nodes.len(),
        forall|j: int| 0 <= j < a.nodes.len() ==> (#[trigger] b.nodes[j]).path == a.nodes[j].path && b.nodes[j].file_type == a.nodes[j].file_type,
    ensures
        mem_inv(b),
{
    assert forall|i: int, j: int| 0 <= i < b.nodes.len() && 0 <= j < b.nodes.len() && i != j implies (#[trigger] b.nodes[i]).path != (#[trigger] b.nodes[j]).path by {
        assert(a.nodes[i].path != a.nodes[j].path);
    }
    assert forall|i: int| 0 <= i < b.nodes.len() && (#[trigger] b.nodes[i]).file_type == FileType::File implies
        b.nodes[i].path.len() > 0 && !is_base_dir(b.nodes[i].path) by {
        assert(a.nodes[i].file_type == FileType::File);
    }
}

/// Adding a node keeps the invariant.
proof fn lemma_inv_add_node(v: MemFsView, p: Seq<u8>, t: FileType)
    requires
        mem_inv(v),
    ensures
        mem_inv(add_node_spec(v, p, t).1),
{
    if add_node_spec(v, p, t).0 is Ok {
        let c = clean(p);
        let v1 = add_node_spec(v, p, t).1;
        lemma_clean_idempotent(p);
        assert(node_type(v, c) is None);
        assert forall|j: int| 0 <= j < v.nodes.len() implies (#[trigger] v.nodes[j]).path != c by {
            if v.nodes[j].path == c {
                lemma_first_exists(v.nodes, c, j);
            }
        }
        assert forall|i: int, j: int| 0 <= i < v1.nodes.len() && 0 <= j < v1.nodes.len() && i != j implies (#[trigger] v1.nodes[i]).path != (#[trigger] v1.nodes[j]).path by {
            if i < v.nodes.len() && j < v.nodes.len() {
                assert(v.nodes[i].path != v.nodes[j].path);
            } else if i < v.nodes.len() {
                assert(v1.nodes[i] == v.nodes[i]);
            } else {
                assert(v1.nodes[j] == v.nodes[j]);
            }
        }
        assert forall|i: int| 0 <= i < v1.nodes.len() && (#[trigger] v1.nodes[i]).file_type == FileType::File implies
            v1.nodes[i].path.len() > 0 && !is_base_dir(v1.nodes[i].path) by {
            if i < v.nodes.len() {
                assert(v1.nodes[i] == v.nodes[i]);
            }
        }
    }
}

/// Removing a file keeps the invariant, and its path is then gone.
proof fn lemma_inv_remove(v: MemFsView, p: Seq<u8>)
    requires
        mem_inv(v),
    ensures
        mem_inv(remove_spec(v, p).1),
        remove_spec(v, p).0 is Ok ==> stat_spec(remove_spec(v, p).1, p) == Err::<FileStat, VfsError>(VfsError::NotFound),
{
    if remove_spec(v, p).0 is Ok {
        let c = clean(p);
        let i = find_node(v.nodes, c)->Some_0;
        let v1 = remove_spec(v, p).1;
        lemma_clean_idempotent(p);
        assert(v1.nodes == v.nodes.remove(i));
        assert forall|a: int, b: int| 0 <= a < v1.nodes.len() && 0 <= b < v1.nodes.len() && a != b implies (#[trigger] v1.nodes[a]).path != (#[trigger] v1.nodes[b]).path by {
            let a2 = if a < i { a } else { a + 1 };
            let b2 = if b < i { b } else { b + 1 };
            assert(v1.nodes[a] == v.nodes[a2]);
            assert(v1.nodes[b] == v.nodes[b2]);
            assert(v.nodes[a2].path != v.nodes[b2].path);
        }
        assert forall|a: int| 0 <= a < v1.nodes.len() && (#[trigger] v1.nodes[a]).file_type == FileType::File implies
            v1.nodes[a].path.len() > 0 && !is_base_dir(v1.nodes[a].path) by {
            let a2 = if a < i { a } else { a + 1 };
            assert(v1.nodes[a] == v.nodes[a2]);
        }
        assert(v.nodes[i].path == c);
        assert(v.nodes[i].file_type == FileType::File);
        assert(!is_base_dir(c));
        if find_node(v1.nodes, p) is Some {
            let j = find_node(v1.nodes, p)->Some_0;
            let j2 = if j < i { j } else { j + 1 };
            assert(v1.nodes[j] == v.nodes[j2]);
            assert(v.nodes[j2].path == c);
            assert(j2 != i);
        }
    }
}

/// Adding a file keeps the invariant.
proof fn lemma_inv_add_file(v: MemFsView, name: Seq<u8>, data: Seq<u8>, fixed: bool)
    requires
        mem_inv(v),
    ensures
        mem_inv(add_file_spec(v, name, data, fixed)),
{
    lemma_inv_add_node(v, name, FileType::File);
    let v1 = add_node_spec(v, name, FileType::File).1;
    if find_node(v1.nodes, name) is Some {
        let i = find_node(v1.nodes, name)->Some_0;
        lemma_inv_same_shape(v1, with_data(v1, i, data, fixed));
    }
}

/// Every operation on open files keeps the invariant.
proof fn lemma_inv_ops(v: MemFsView, p: Seq<u8>, flags: OpenFlags, h: FileHandle, cap: int, buf: Seq<u8>)
    requires
        mem_inv(v),
    ensures
        mem_inv(open_spec(v, p, flags).1),
        mem_inv(read_spec(v, h, cap).1),
        mem_inv(write_spec(v, h, buf).1),
        mem_inv(close_spec(v, h).1),
        mem_inv(truncate_spec(v, p).1),
{
    lemma_inv_same_shape(v, read_spec(v, h, cap).1);
    lemma_inv_same_shape(v, write_spec(v, h, buf).1);
    lemma_inv_same_shape(v, close_spec(v, h).1);
    lemma_inv_same_shape(v, truncate_spec(v, p).1);
    if flags_valid(flags.bits) {
        let created = if node_type(v, p) is None && flag_set(flags.bits, OPEN_CREATE) {
            add_node_spec(v, p, FileType::File)
        } else {
            (Ok(()), v)
        };
        lemma_inv_add_node(v, p, FileType::File);
        let v1 = created.1;
        assert(mem_inv(v1));
        if created.0 is Ok && node_type(v1, p) == Some(FileType::File) && find_node(v1.nodes, p) is Some {
            let i = find_node(v1.nodes, p)->Some_0;
            lemma_inv_same_shape(v1, with_data(v1, i, Seq::empty(), false));
            lemma_inv_same_shape(v1, open_spec(v, p, flags).1);
        }
    }
}

/// Creating a node, as the trait's model states it.
proof fn lemma_create_model(v: MemFsView, p: Seq<u8>)
    ensures
        add_node_spec(v, p, FileType::File).0 is Ok ==> content_of(add_node_spec(v, p, FileType::File).1, clean(p)) == Some(Seq::<u8>::empty()),
        forall|q: Seq<u8>| content_of(v, q) is Some ==> #[trigger] content_of(add_node_spec(v, p, FileType::File).1, q) == content_of(v, q),
        forall|h: FileHandle| #[trigger] handle_of(add_node_spec(v, p, FileType::File).1, h) == handle_of(v, h),
        add_node_spec(v, p, FileType::File).1.next_handle == v.next_handle,
{
    let v1 = add_node_spec(v, p, FileType::File).1;
    lemma_clean_idempotent(p);
    lemma_find_node_clean(v.nodes, p);
    if add_node_spec(v, p, FileType::File).0 is Ok {
        lemma_add_node_stat(v, p, FileType::File);
        lemma_find_node_clean(v1.nodes, p);
        assert(node_type(v, clean(p)) is None);
        assert(v1.nodes == v.nodes.push(empty_node(clean(p), FileType::File)));
        let i = find_node(v1.nodes, p)->Some_0;
        assert(v1.nodes[i].file_type == FileType::File);
        assert(v1.nodes[i].data.len() as usize == 0);
        if i < v.nodes.len() {
            assert(v1.nodes[i] == v.nodes[i]);
            assert(v.nodes[i].path == clean(p));
            lemma_first_exists(v.nodes, clean(p), i);
        }
        assert(v1.nodes[i].data =~= Seq::<u8>::empty());
        assert forall|q: Seq<u8>| content_of(v, q) is Some implies #[trigger] content_of(v1, q) == content_of(v, q) by {
            lemma_find_node_push(v.nodes, empty_node(clean(p), FileType::File), q);
            let j = find_node(v.nodes, q)->Some_0;
            assert(v1.nodes[j] == v.nodes[j]);
        }
    }
}

/// Emptying a file, as the trait's model states it.
proof fn lemma_truncate_model(v: MemFsView, p: Seq<u8>)
    ensures
        truncate_spec(v, p).0 is Ok && content_of(v, clean(p)) is Some ==> content_of(truncate_spec(v, p).1, clean(p)) == Some(Seq::<u8>::empty()),
        forall|q: Seq<u8>| clean(q) != clean(p) ==> #[trigger] content_of(truncate_spec(v, p).1, q) == content_of(v, q),
        forall|h: FileHandle| #[trigger] handle_of(truncate_spec(v, p).1, h) == handle_of(v, h),
        truncate_spec(v, p).1.next_handle == v.next_handle,
{
    let v1 = truncate_spec(v, p).1;
    lemma_clean_idempotent(p);
    lemma_find_node_clean(v.nodes, p);
    if truncate_spec(v, p).0 is Ok {
        let i = find_node(v.nodes, clean(p))->Some_0;
        assert forall|q: Seq<u8>| #[trigger] find_node(v1.nodes, q) == find_node(v.nodes, q) by {
            lemma_find_node_paths(v1.nodes, v.nodes, q);
        }
        lemma_find_node_clean(v1.nodes, p);
        assert forall|q: Seq<u8>| clean(q) != clean(p) implies #[trigger] content_of(v1, q) == content_of(v, q) by {
            if find_node(v.nodes, q) == Some(i) {
                assert(v.nodes[i].path == clean(q));
                assert(v.nodes[i].path == clean(clean(p)));
            }
        }
    }
}

/// Looking a path up in the cleaned form of itself finds the same node.
proof fn lemma_find_node_clean(nodes: Seq<NodeView>, p: Seq<u8>)
    ensures
        find_node(nodes, clean(p)) == find_node(nodes, p),
{
    lemma_clean_idempotent(p);
}

/// Appending a node keeps every node that was found.
proof fn lemma_find_node_push(a: Seq<NodeView>, x: NodeView, q: Seq<u8>)
    requires
        find_node(a, q) is Some,
    ensures
        find_node(a.push(x), q) == find_node(a, q),
{
    let c = clean(q);
    let i = find_node(a, q)->Some_0;
    let b = a.push(x);
    assert(is_first_node(a, c, i));
    assert(is_first_node(b, c, i)) by {
        assert forall|j: int| 0 <= j < i implies (#[trigger] b[j]).path != c by {
            assert(b[j] == a[j]);
        }
    }
    let k = choose|k: int| is_first_node(b, c, k);
    lemma_first_node_unique(b, c, i, k);
}

/// Appending a handle keeps every handle that was found, and a handle
/// numbered afresh is found at the end.
proof fn lemma_find_handle_push(a: Seq<HandleView>, x: HandleView, h: FileHandle)
    ensures
        find_handle(a, h) is Some ==> find_handle(a.push(x), h) == find_handle(a, h),
        find_handle(a, h) is None && x.id == h ==> find_handle(a.push(x), h) == Some(a.len() as int),
        find_handle(a, h) is None && x.id != h ==> find_handle(a.push(x), h) is None,
{
    let b = a.push(x);
    if find_handle(a, h) is Some {
        let k = find_handle(a, h)->Some_0;
        assert(is_first_handle(b, h, k)) by {
            assert forall|j: int| 0 <= j < k implies (#[trigger] b[j]).id != h by {
                assert(b[j] == a[j]);
            }
        }
        let m = choose|m: int| is_first_handle(b, h, m);
        lemma_first_handle_unique(b, h, k, m);
    } else if x.id == h {
        assert forall|j: int| 0 <= j < a.len() implies (#[trigger] b[j]).id != h by {
            assert(b[j] == a[j]);
            if a[j].id == h {
                lemma_first_handle_exists(a, h, j);
            }
        }
        assert(is_first_handle(b, h, a.len() as int));
        let m = choose|m: int| is_first_handle(b, h, m);
        lemma_first_handle_unique(b, h, a.len() as int, m);
    } else {
        if exists|m: int| is_first_handle(b, h, m) {
            let m = choose|m: int| is_first_handle(b, h, m);
            if m < a.len() {
                assert(b[m] == a[m]);
                lemma_first_handle_exists(a, h, m);
            }
        }
    }
}

/// Whenever some handle is numbered `h`, a first one is.
proof fn lemma_first_handle_exists(hs: Seq<HandleView>, h: FileHandle, j: int)
    requires
        0 <= j < hs.len(),
        hs[j].id == h,
    ensures
        exists|k: int| is_first_handle(hs, h, k),
    decreases j,
{
    if !is_first_handle(hs, h, j) {
        let k = choose|k: int| 0 <= k < j && (#[trigger] hs[k]).id == h;
        lemma_first_handle_exists(hs, h, k);
    }
}

/// A read through a handle, as the trait's model states it.
proof fn lemma_read_model(v: MemFsView, h: FileHandle, cap: int)
    requires
        cap >= 0,
    ensures
        forall|q: Seq<u8>| #[trigger] content_of(read_spec(v, h, cap).1, q) == content_of(v, q),
        forall|h2: FileHandle| h2 != h ==> #[trigger] handle_of(read_spec(v, h, cap).1, h2) == handle_of(v, h2),
        (handle_of(v, h) is Some && handle_of(v, h)->Some_0.read && content_of(v, handle_of(v, h)->Some_0.path) is Some) ==> {
            let m = handle_of(v, h)->Some_0;
            let d = read_part(content_of(v, m.path)->Some_0, m.offset as int, cap);
            &&& read_spec(v, h, cap).0 == Ok::<usize, VfsError>(d.len() as usize)
            &&& read_bytes(v, h, cap) == d
            &&& handle_of(read_spec(v, h, cap).1, h) == Some(HandleModel { offset: (m.offset + d.len()) as usize, ..m })
        },
{
    let v1 = read_spec(v, h, cap).1;
    assert(v1.nodes == v.nodes);
    if find_handle(v.handles, h) is Some {
        let k = find_handle(v.handles, h)->Some_0;
        lemma_find_handle_ids(v1.handles, v.handles, h);
        assert forall|h2: FileHandle| h2 != h implies #[trigger] handle_of(v1, h2) == handle_of(v, h2) by {
            lemma_find_handle_ids(v1.handles, v.handles, h2);
            if find_handle(v.handles, h2) is Some {
                let k2 = find_handle(v.handles, h2)->Some_0;
                assert(k2 != k);
                assert(v1.handles[k2] == v.handles[k2]);
            }
        }
        lemma_find_node_clean(v.nodes, v.handles[k].path);
    }
}

/// A write through a handle, as the trait's model states it.
proof fn lemma_write_model(v: MemFsView, h: FileHandle, buf: Seq<u8>)
    ensures
        write_spec(v, h, buf).0 is Err ==> write_spec(v, h, buf).1 == v,
        write_spec(v, h, buf).0 matches Ok(n) ==> n == buf.len(),
        forall|h2: FileHandle| h2 != h ==> #[trigger] handle_of(write_spec(v, h, buf).1, h2) == handle_of(v, h2),
        (write_spec(v, h, buf).0 is Ok && handle_of(v, h) is Some && content_of(v, handle_of(v, h)->Some_0.path) is Some) ==> {
            let m = handle_of(v, h)->Some_0;
            let c = content_of(v, m.path)->Some_0;
            let pos = if m.append { c.len() as int } else { m.offset as int };
            let v1 = write_spec(v, h, buf).1;
            &&& content_of(v1, m.path) == Some(write_into(c, pos, buf))
            &&& handle_of(v1, h) == Some(HandleModel { offset: (pos + buf.len()) as usize, ..m })
            &&& forall|q: Seq<u8>| clean(q) != m.path ==> #[trigger] content_of(v1, q) == content_of(v, q)
        },
{
    let v1 = write_spec(v, h, buf).1;
    if write_spec(v, h, buf).0 is Ok {
        let k = find_handle(v.handles, h)->Some_0;
        let hv = v.handles[k];
        let i = find_node(v.nodes, hv.path)->Some_0;
        let off = write_offset(v, hv, i);
        let d1 = write_into(v.nodes[i].data, off, buf);
        let va = with_data(v, i, d1, false);
        assert(v1 == with_offset(va, k, (off + buf.len()) as usize));
        lemma_find_handle_data(v, i, d1, h);
        assert forall|q: Seq<u8>| #[trigger] find_node(v1.nodes, q) == find_node(v.nodes, q) by {
            lemma_find_node_paths(v1.nodes, v.nodes, q);
        }
        lemma_find_handle_ids(v1.handles, v.handles, h);
        assert forall|h2: FileHandle| h2 != h implies #[trigger] handle_of(v1, h2) == handle_of(v, h2) by {
            lemma_find_handle_ids(v1.handles, v.handles, h2);
            if find_handle(v.handles, h2) is Some {
                let k2 = find_handle(v.handles, h2)->Some_0;
                assert(k2 != k);
                assert(v1.handles[k2] == v.handles[k2]);
            }
        }
        lemma_find_node_clean(v.nodes, hv.path);
        lemma_find_node_clean(v1.nodes, hv.path);
        assert forall|q: Seq<u8>| clean(q) != clean(hv.path) implies #[trigger] content_of(v1, q) == content_of(v, q) by {
            if find_node(v.nodes, q) == Some(i) {
                assert(v.nodes[i].path == clean(q));
                assert(v.nodes[i].path == clean(hv.path));
            }
        }
    }
}

/// Opening a file, as the trait's model states it.
proof fn lemma_open_model(v: MemFsView, p: Seq<u8>, flags: OpenFlags)
    ensures
        open_spec(v, p, flags).0 matches Ok(h) ==> h == v.next_handle,
        content_of(v, clean(p)) is Some && flags_valid(flags.bits) && !flag_set(flags.bits, OPEN_TRUNC) ==> open_spec(v, p, flags).0 is Ok,
        !flag_set(flags.bits, OPEN_TRUNC) ==> forall|q: Seq<u8>| content_of(v, q) is Some ==> #[trigger] content_of(open_spec(v, p, flags).1, q) == content_of(v, q),
        open_spec(v, p, flags).0 is Err ==> forall|q: Seq<u8>| content_of(v, q) is Some ==> #[trigger] content_of(open_spec(v, p, flags).1, q) == content_of(v, q),
        forall|h2: FileHandle| handle_of(v, h2) is Some ==> #[trigger] handle_of(open_spec(v, p, flags).1, h2) == handle_of(v, h2),
        !flag_set(flags.bits, OPEN_TRUNC) ==> forall|q: Seq<u8>| stat_spec(v, q) is Ok ==> #[trigger] stat_spec(open_spec(v, p, flags).1, q) == stat_spec(v, q),
        (open_spec(v, p, flags).0 is Ok && handle_of(v, open_spec(v, p, flags).0->Ok_0) is None
            && (content_of(v, clean(p)) is Some || stat_spec(v, p) == Err::<FileStat, VfsError>(VfsError::NotFound))) ==> {
            let start = if flag_set(flags.bits, OPEN_TRUNC) || content_of(v, clean(p)) is None { Seq::<u8>::empty() } else { content_of(v, clean(p))->0 };
            &&& content_of(open_spec(v, p, flags).1, clean(p)) == Some(start)
            &&& handle_of(open_spec(v, p, flags).1, open_spec(v, p, flags).0->Ok_0) == Some(HandleModel {
                path: clean(p),
                offset: if flag_set(flags.bits, OPEN_APPEND) { start.len() as usize } else { 0usize },
                append: flag_set(flags.bits, OPEN_APPEND),
                read: flag_set(flags.bits, OPEN_READ),
                write: flag_set(flags.bits, OPEN_WRITE),
            })
        },
{
    lemma_find_node_clean(v.nodes, p);
    lemma_clean_idempotent(p);
    if flags_valid(flags.bits) {
        let created = if node_type(v, p) is None && flag_set(flags.bits, OPEN_CREATE) {
            add_node_spec(v, p, FileType::File)
        } else {
            (Ok(()), v)
        };
        let v1 = created.1;
        // nodes of v1 extend those of v
        assert(v1.handles == v.handles);
        assert(v1.nodes == v.nodes || v1.nodes == v.nodes.push(empty_node(clean(p), FileType::File)));
        assert forall|q: Seq<u8>| find_node(v.nodes, q) is Some implies #[trigger] find_node(v1.nodes, q) == find_node(v.nodes, q) by {
            if v1.nodes != v.nodes {
                lemma_find_node_push(v.nodes, empty_node(clean(p), FileType::File), q);
            }
        }
        assert forall|q: Seq<u8>| content_of(v, q) is Some implies #[trigger] content_of(v1, q) == content_of(v, q) by {
            if v1.nodes != v.nodes {
                lemma_find_node_push(v.nodes, empty_node(clean(p), FileType::File), q);
                let j = find_node(v.nodes, q)->Some_0;
                assert(v1.nodes[j] == v.nodes[j]);
            }
        }
        assert forall|q: Seq<u8>| stat_spec(v, q) is Ok implies #[trigger] stat_spec(v1, q) == stat_spec(v, q) by {
            if v1.nodes != v.nodes {
                if find_node(v.nodes, q) is Some {
                    lemma_find_node_push(v.nodes, empty_node(clean(p), FileType::File), q);
                    let j = find_node(v.nodes, q)->Some_0;
                    assert(v1.nodes[j] == v.nodes[j]);
                }
            }
        }
        if created.0 is Ok {
            match node_type(v1, p) {
                Some(FileType::File) => {
                    if find_node(v1.nodes, p) is Some {
                        let i = find_node(v1.nodes, p)->Some_0;
                        let trunc = flag_set(flags.bits, OPEN_TRUNC);
                        if !(trunc && !flag_set(flags.bits, OPEN_WRITE)) && !(trunc && v1.nodes[i].fixed) {
                            let v2 = if trunc { with_data(v1, i, Seq::empty(), false) } else { v1 };
                            let offset = if flag_set(flags.bits, OPEN_APPEND) { v2.nodes[i].data.len() as usize } else { 0usize };
                            let h = v.next_handle;
                            let hv = HandleView { id: h, path: clean(p), offset, flags };
                            let v3 = open_spec(v, p, flags).1;
                            assert(v3.nodes == v2.nodes);
                            assert(v3.handles == v2.handles.push(hv));
                            assert(v2.handles == v.handles);
                            assert forall|q: Seq<u8>| #[trigger] find_node(v2.nodes, q) == find_node(v1.nodes, q) by {
                                lemma_find_node_paths(v2.nodes, v1.nodes, q);
                            }
                            assert forall|h2: FileHandle| handle_of(v, h2) is Some implies #[trigger] handle_of(v3, h2) == handle_of(v, h2) by {
                                lemma_find_handle_push(v.handles, hv, h2);
                                let k2 = find_handle(v.handles, h2)->Some_0;
                                assert(v3.handles[k2] == v.handles[k2]);
                            }
                            lemma_find_handle_push(v.handles, hv, h);
                            lemma_find_node_clean(v1.nodes, p);
                            lemma_find_node_clean(v2.nodes, p);
                            if !trunc {
                                assert(v2 == v1);
                            }
                            if handle_of(v, h) is None && (content_of(v, clean(p)) is Some || stat_spec(v, p) == Err::<FileStat, VfsError>(VfsError::NotFound)) {
                                assert(find_handle(v3.handles, h) == Some(v.handles.len() as int));
                                assert(v3.handles[v.handles.len() as int] == hv);
                                assert(open_spec(v, p, flags).0 == Ok::<FileHandle, VfsError>(h));
                                let c = clean(p);
                                assert(find_node(v3.nodes, c) == Some(i));
                                assert(v1.nodes[i].file_type == FileType::File);
                                assert(v3.nodes[i].file_type == FileType::File);
                                let start = if trunc || content_of(v, c) is None { Seq::<u8>::empty() } else { content_of(v, c)->0 };
                                if content_of(v, c) is Some {
                                    assert(node_type(v, p) is Some);
                                    assert(v1 == v);
                                    assert(find_node(v.nodes, c) == Some(i));
                                } else {
                                    assert(node_type(v, p) is None);
                                    assert(v1.nodes == v.nodes.push(empty_node(c, FileType::File)));
                                    if i < v.nodes.len() {
                                        assert(v1.nodes[i] == v.nodes[i]);
                                        assert(v.nodes[i].path == c);
                                        lemma_first_exists(v.nodes, c, i);
                                        assert(find_node(v.nodes, c) is Some);
                                    }
                                    assert(v1.nodes[i].data == Seq::<u8>::empty());
                                }
                                assert(v3.nodes[i].data == start);
                                assert(content_of(v3, c) == Some(start));
                                assert(handle_of(v3, h) == Some(HandleModel {
                                    path: c,
                                    offset: if flag_set(flags.bits, OPEN_APPEND) { start.len() as usize } else { 0usize },
                                    append: flag_set(flags.bits, OPEN_APPEND),
                                    read: flag_set(flags.bits, OPEN_READ),
                                    write: flag_set(flags.bits, OPEN_WRITE),
                                }));
                            }
                        } else {
                        }
                    }
                },
                _ => {},
            }
        }
    }
}

/// Handle `r` reads the file that handle `w` writes, from the position
/// where a write through `w` begins.
pub open spec fn reads_where_written(v: MemFsView, w: FileHandle, r: FileHandle) -> bool {
    &&& find_handle(v.handles, w) is Some
    &&& find_handle(v.handles, r) is Some
    &&& find_handle(v.handles, w) != find_handle(v.handles, r)
    &&& flag_set(v.handles[find_handle(v.handles, r)->Some_0].flags.bits, OPEN_READ)
    &&& find_node(v.nodes, v.handles[find_handle(v.handles, r)->Some_0].path)
        == find_node(v.nodes, v.handles[find_handle(v.handles, w)->Some_0].path)
    &&& find_node(v.nodes, v.handles[find_handle(v.handles, w)->Some_0].path) is Some
    &&& v.handles[find_handle(v.handles, r)->Some_0].offset == write_offset(
        v,
        v.handles[find_handle(v.handles, w)->Some_0],
        find_node(v.nodes, v.handles[find_handle(v.handles, w)->Some_0].path)->Some_0,
    )
}

/// What is written is read back: after a successful write of `buf` through
/// `w`, a read of as many bytes through a handle open on the same file at
/// the position where the write began returns exactly `buf`.
pub proof fn law_write_then_read(v: MemFsView, w: FileHandle, r: FileHandle, buf: Seq<u8>)
    requires
        write_spec(v, w, buf).0 is Ok,
        reads_where_written(v, w, r),
    ensures
        read_spec(write_spec(v, w, buf).1, r, buf.len() as int).0 == Ok::<usize, VfsError>(buf.len() as usize),
        read_bytes(write_spec(v, w, buf).1, r, buf.len() as int) == buf,
{
    let kw = find_handle(v.handles, w)->Some_0;
    let kr = find_handle(v.handles, r)->Some_0;
    let hw = v.handles[kw];
    let i = find_node(v.nodes, hw.path)->Some_0;
    let off = write_offset(v, hw, i);
    let end = off + buf.len();
    let d1 = write_into(v.nodes[i].data, off, buf);
    let va = with_data(v, i, d1, false);
    let v1 = with_offset(va, kw, end as usize);
    assert(write_spec(v, w, buf).1 == v1);
    lemma_find_node_paths(v1.nodes, v.nodes, v.handles[kr].path);
    lemma_find_handle_ids(v1.handles, v.handles, r);
    assert(v1.handles[kr] == v.handles[kr]);
    let z = zero_fill(v.nodes[i].data, end);
    assert(z.len() >= end);
    assert(d1.len() == z.len());
    assert(d1.subrange(off, end) =~= buf);
}

/// A built-in image is served back as built-in, an owned file is not: after
/// `add_static_file` of `name` with `d`, `static_file(name)` gives `d`;
/// after `add_file` with `data` it gives nothing and `stat` sees a file of
/// `data`'s size. This holds wherever `name` can be a file: an existing
/// file, or a new name under an existing directory.
pub proof fn law_static_file(v: MemFsView, name: Seq<u8>, d: Seq<u8>, data: Seq<u8>)
    requires
        content_of(v, clean(name)) is Some
            || (node_type(v, name) is None && clean(name).len() > 0 && parent_exists(v, clean(name))),
        data.len() <= usize::MAX,
    ensures
        static_image(add_file_spec(v, name, d, true), name) == Some(d),
        static_image(add_file_spec(v, name, data, false), name) is None,
        stat_spec(add_file_spec(v, name, data, false), name) == Ok::<FileStat, VfsError>(FileStat { file_type: FileType::File, size: data.len() as usize }),
{
    lemma_clean_idempotent(name);
    lemma_find_node_clean(v.nodes, name);
    let v1 = add_node_spec(v, name, FileType::File).1;
    if add_node_spec(v, name, FileType::File).0 is Ok {
        lemma_add_node_stat(v, name, FileType::File);
    } else {
        assert(v1 == v);
    }
    lemma_find_node_clean(v1.nodes, name);
    assert(find_node(v1.nodes, name) is Some);
    let i = find_node(v1.nodes, name)->Some_0;
    assert(v1.nodes[i].file_type == FileType::File);
    assert(!is_base_dir(clean(name)) && clean(name).len() > 0);
    let a = with_data(v1, i, d, true);
    let b = with_data(v1, i, data, false);
    lemma_find_node_paths(a.nodes, v1.nodes, name);
    lemma_find_node_paths(b.nodes, v1.nodes, name);
}

/// What is written through the calls is read back through them: on an owned
/// file `p`, opening it truncated for writing, writing `d`, opening it for
/// reading and reading at least `d.len()` bytes returns exactly `d`; a
/// further read returns nothing, and `stat` sees a file of `d`'s size.
/// This holds in every state whose handles are fresh and whose handle
/// counter has room for the two new handles.
pub proof fn law_open_write_read(v: MemFsView, p: Seq<u8>, d: Seq<u8>, cap: int)
    requires
        content_of(v, clean(p)) is Some,
        !v.nodes[find_node(v.nodes, p)->Some_0].fixed,
        handles_fresh(v),
        v.next_handle < usize::MAX,
        d.len() <= usize::MAX,
        d.len() <= cap,
    ensures
        ({
            let wflags = OpenFlags { bits: OPEN_WRITE | OPEN_TRUNC };
            let rflags = OpenFlags { bits: OPEN_READ };
            let (r1, v1) = open_spec(v, p, wflags);
            let (r2, v2) = write_spec(v1, r1->Ok_0, d);
            let (r3, v3) = open_spec(v2, p, rflags);
            let (r4, v4) = read_spec(v3, r3->Ok_0, cap);
            let (r5, v5) = read_spec(v4, r3->Ok_0, cap);
            &&& r1 is Ok && r2 == Ok::<usize, VfsError>(d.len() as usize) && r3 is Ok
            &&& r4 == Ok::<usize, VfsError>(d.len() as usize) && read_bytes(v3, r3->Ok_0, cap) == d
            &&& r5 == Ok::<usize, VfsError>(0)
            &&& stat_spec(v5, p) == Ok::<FileStat, VfsError>(FileStat { file_type: FileType::File, size: d.len() as usize })
        }),
{
    lemma_fresh_unused(v, v.next_handle);
    lemma_fresh_unused(v, next_handle_after(v.next_handle));
    let k = clean(p);
    let wflags = OpenFlags { bits: OPEN_WRITE | OPEN_TRUNC };
    let rflags = OpenFlags { bits: OPEN_READ };
    assert(flags_valid(wflags.bits) && flag_set(wflags.bits, OPEN_TRUNC) && flag_set(wflags.bits, OPEN_WRITE)
        && !flag_set(wflags.bits, OPEN_APPEND) && !flag_set(wflags.bits, OPEN_READ) && !flag_set(wflags.bits, OPEN_CREATE)) by {
        assert((2u32 | 8u32) & !31u32 == 0 && (2u32 | 8u32) & 8u32 == 8u32 && (2u32 | 8u32) & 2u32 == 2u32
            && (2u32 | 8u32) & 16u32 != 16u32 && (2u32 | 8u32) & 1u32 != 1u32 && (2u32 | 8u32) & 4u32 != 4u32) by (bit_vector);
    }
    crate::fs::vfs::lemma_read_flags();
    lemma_clean_idempotent(p);
    lemma_find_node_clean(v.nodes, p);
    // first open: truncating write
    lemma_open_model(v, p, wflags);
    let (r1, v1) = open_spec(v, p, wflags);
    let i = find_node(v.nodes, p)->Some_0;
    assert(node_type(v, p) == Some(FileType::File));
    assert(r1 == Ok::<FileHandle, VfsError>(v.next_handle));
    let h1 = v.next_handle;
    assert(handle_of(v, h1) is None);
    assert(content_of(v1, k) == Some(Seq::<u8>::empty()));
    assert(v1.next_handle == next_handle_after(h1));
    // write
    lemma_write_model(v1, h1, d);
    let m1 = handle_of(v1, h1)->Some_0;
    assert(m1.path == k && m1.offset == 0 && !m1.append && m1.write);
    let (r2, v2) = write_spec(v1, h1, d);
    lemma_find_node_clean(v1.nodes, p);
    let j = find_node(v1.nodes, p)->Some_0;
    assert(!v1.nodes[j].fixed);
    assert(r2 == Ok::<usize, VfsError>(d.len() as usize));
    assert(crate::fs::memfs::write_into(Seq::<u8>::empty(), 0, d) =~= d);
    assert(content_of(v2, k) == Some(d));
    let h2 = next_handle_after(h1);
    assert(h2 != h1);
    assert(v1.handles == v.handles.push(v1.handles.last()));
    assert(v1.handles.last().id == h1);
    lemma_find_handle_push(v.handles, v1.handles.last(), h2);
    assert(handle_of(v1, h2) is None);
    assert(handle_of(v2, h2) == handle_of(v1, h2));
    assert(handle_of(v2, h2) is None);
    assert(v2.next_handle == h2);
    // second open: reading
    lemma_open_model(v2, p, rflags);
    let (r3, v3) = open_spec(v2, p, rflags);
    assert(content_of(v2, k) is Some);
    assert(r3 == Ok::<FileHandle, VfsError>(h2));
    assert(content_of(v3, k) == Some(d));
    assert(handle_of(v3, h2) == Some(HandleModel { path: k, offset: 0usize, append: false, read: true, write: false }));
    // reads
    lemma_read_model(v3, h2, cap);
    let (r4, v4) = read_spec(v3, h2, cap);
    assert(read_part(d, 0, cap) =~= d);
    lemma_read_model(v4, h2, cap);
    assert(content_of(v4, k) == Some(d));
    let (r5, v5) = read_spec(v4, h2, cap);
    assert(read_part(d, d.len() as int, cap).len() == 0);
    assert(content_of(v5, k) == Some(d));
    lemma_find_node_clean(v5.nodes, p);
    assert(r1 is Ok && r2 == Ok::<usize, VfsError>(d.len() as usize) && r3 is Ok);
    assert(r4 == Ok::<usize, VfsError>(d.len() as usize));
    assert(read_bytes(v3, h2, cap) == d);
    assert(r5 == Ok::<usize, VfsError>(0));
    let n5 = find_node(v5.nodes, k)->Some_0;
    assert(v5.nodes[n5].data == d);
    assert(stat_spec(v5, p) == Ok::<FileStat, VfsError>(FileStat { file_type: FileType::File, size: d.len() as usize }));
}

/// Removing a file closes every handle open on it: after `remove(p)`
/// succeeds, `stat(p)` answers `NotFound` and a read through a handle that
/// was open on `p` answers `InvalidDescriptor`, in every state whose
/// handles are fresh.
pub proof fn law_remove_closes(v: MemFsView, p: Seq<u8>, h: FileHandle, cap: int)
    requires
        mem_inv(v),
        remove_spec(v, p).0 is Ok,
        find_handle(v.handles, h) matches Some(k) && v.handles[k].path == clean(p),
        handles_fresh(v),
    ensures
        stat_spec(remove_spec(v, p).1, p) == Err::<FileStat, VfsError>(VfsError::NotFound),
        read_spec(remove_spec(v, p).1, h, cap).0 == Err::<usize, VfsError>(VfsError::InvalidDescriptor),
{
    lemma_inv_remove(v, p);
    let c = clean(p);
    let v1 = remove_spec(v, p).1;
    assert(v1.handles == handles_not_on(v.handles, c));
    if find_handle(v1.handles, h) is Some {
        let m = find_handle(v1.handles, h)->Some_0;
        assert(v1.handles[m].id == h);
        let hv = v1.handles[m];
        // every kept handle is one of the old ones, off the removed file
        lemma_filter_map_kept(v.handles, c, hv);
        let k = find_handle(v.handles, h)->Some_0;
        let a = choose|a: int| 0 <= a < v.handles.len() && v.handles[a] == hv;
        assert(v.handles[a].id == h);
        assert(v.handles[k].id == h);
        if a != k {
            assert(v.handles[a].id != v.handles[k].id);
        }
        assert(hv.path != c);
    }
}

/// A handle kept by `handles_not_on` is an old handle off `c`.
proof fn lemma_filter_map_kept(hs: Seq<HandleView>, c: Seq<u8>, x: HandleView)
    requires
        handles_not_on(hs, c).contains(x),
    ensures
        x.path != c,
        exists|a: int| 0 <= a < hs.len() && hs[a] == x,
    decreases hs.len(),
{
    reveal_with_fuel(Seq::filter_map, 2);
    if hs.len() > 0 {
        let rest = hs.drop_last();
        let last = hs.last();
        assert(handles_not_on(hs, c) == handles_not_on(rest, c) + (if last.path != c { seq![last] } else { Seq::empty() })) by {
            assert(hs.drop_last() =~= rest);
        }
        if handles_not_on(rest, c).contains(x) {
            lemma_filter_map_kept(rest, c, x);
            let a = choose|a: int| 0 <= a < rest.len() && rest[a] == x;
            assert(hs[a] == x);
        } else {
            let t = handles_not_on(hs, c);
            let j = choose|j: int| 0 <= j < t.len() && t[j] == x;
            assert(j >= handles_not_on(rest, c).len());
            assert(x == last);
            assert(hs[hs.len() - 1] == x);
        }
    }
}

/// A file that was just created is an empty file.
pub proof fn law_create_then_stat(v: MemFsView, p: Seq<u8>)
    requires
        add_node_spec(v, p, FileType::File).0 is Ok,
    ensures
        stat_spec(add_node_spec(v, p, FileType::File).1, p) == Ok::<FileStat, VfsError>(FileStat { file_type: FileType::File, size: 0 }),
{
    let c = clean(p);
    lemma_clean_idempotent(p);
    let v1 = add_node_spec(v, p, FileType::File).1;
    let n = v1.nodes.len() - 1;
    assert(find_node(v.nodes, c) is None);
    assert forall|j: int| 0 <= j < n implies (#[trigger] v1.nodes[j]).path != c by {
        if v.nodes[j].path == c {
            assert(exists|i: int| is_first_node(v.nodes, c, i)) by {
                if !is_first_node(v.nodes, c, j) {
                    let k = choose|k: int| 0 <= k < j && v.nodes[k].path == c;
                    lemma_first_exists(v.nodes, c, k);
                }
            }
        }
    }
    assert(is_first_node(v1.nodes, c, n));
    let k = choose|k: int| is_first_node(v1.nodes, c, k);
    lemma_first_node_unique(v1.nodes, c, n, k);
}

/// Whenever some node is stored under `c`, a first one is.
proof fn lemma_first_exists(nodes: Seq<NodeView>, c: Seq<u8>, j: int)
    requires
        0 <= j < nodes.len(),
        nodes[j].path == c,
    ensures
        exists|i: int| is_first_node(nodes, c, i),
    decreases j,
{
    if !is_first_node(nodes, c, j) {
        let k = choose|k: int| 0 <= k < j && (#[trigger] nodes[k]).path == c;
        lemma_first_exists(nodes, c, k);
    }
}

/// `v` after adding, in order, each file of `files` (a path and its bytes);
/// `fixed` marks them as read-only built-in images.
pub open spec fn with_files(v: MemFsView, files: Seq<(&str, &[u8])>, fixed: bool) -> MemFsView
    decreases files.len(),
{
    if files.len() == 0 {
        v
    } else {
        add_file_spec(with_files(v, files.drop_last(), fixed), files.last().0.spec_bytes(), files.last().1@, fixed)
    }
}

/// `v` after making, in order, each directory of `dirs` (refusals ignored).
pub open spec fn with_dirs(v: MemFsView, dirs: Seq<&str>) -> MemFsView
    decreases dirs.len(),
{
    if dirs.len() == 0 {
        v
    } else {
        add_node_spec(with_dirs(v, dirs.drop_last()), dirs.last().spec_bytes(), FileType::Directory).1
    }
}

/// The root file system at boot: the programs of `early`, the asset
/// directories and the asset images, then the programs of `late`.
pub open spec fn root_image(early: Seq<(&str, &[u8])>, dirs: Seq<&str>, assets: Seq<(&str, &[u8])>, late: Seq<(&str, &[u8])>) -> MemFsView {
    let v0 = MemFsView { nodes: Seq::empty(), handles: Seq::empty(), next_handle: 1 };
    with_files(with_files(with_dirs(with_files(v0, early, false), dirs), assets, true), late, false)
}

impl MemFs {
    fn add_files(&mut self, files: &[(&str, &[u8])])
        ensures
            final(self)@ == with_files(old(self)@, files@, false),
            mem_inv(old(self)@) ==> mem_inv(final(self)@),
    {
        let mut i: usize = 0;
        while i < files.len()
            invariant
                i <= files@.len(),
                self@ == with_files(old(self)@, files@.subrange(0, i as int), false),
                mem_inv(old(self)@) ==> mem_inv(self@),
            decreases files@.len() - i,
        {
            let (name, data) = files[i];
            proof {
                if mem_inv(old(self)@) {
                    lemma_inv_add_file(self@, name.spec_bytes(), data@, false);
                }
            }
            proof {
                assert(files@.subrange(0, i as int + 1).drop_last() =~= files@.subrange(0, i as int));
            }
            self.add_file(name, vstd::slice::slice_to_vec(data));
            i = i + 1;
        }
        proof {
            assert(files@.subrange(0, files@.len() as int) =~= files@);
        }
    }

    fn add_static_files(&mut self, files: &[(&str, &'static [u8])])
        ensures
            final(self)@ == with_files(old(self)@, files@, true),
            mem_inv(old(self)@) ==> mem_inv(final(self)@),
    {
        let mut i: usize = 0;
        while i < files.len()
            invariant
                i <= files@.len(),
                self@ == with_files(old(self)@, files@.subrange(0, i as int), true),
                mem_inv(old(self)@) ==> mem_inv(self@),
            decreases files@.len() - i,
        {
            let (name, data) = files[i];
            proof {
                if mem_inv(old(self)@) {
                    lemma_inv_add_file(self@, name.spec_bytes(), data@, true);
                }
            }
            proof {
                assert(files@.subrange(0, i as int + 1).drop_last() =~= files@.subrange(0, i as int));
            }
            self.add_static_file(name, data);
            i = i + 1;
        }
        proof {
            assert(files@.subrange(0, files@.len() as int) =~= files@);
        }
    }

    fn add_dirs(&mut self, dirs: &[&str])
        ensures
            final(self)@ == with_dirs(old(self)@, dirs@),
            mem_inv(old(self)@) ==> mem_inv(final(self)@),
    {
        let mut i: usize = 0;
        while i < dirs.len()
            invariant
                i <= dirs@.len(),
                self@ == with_dirs(old(self)@, dirs@.subrange(0, i as int)),
                mem_inv(old(self)@) ==> mem_inv(self@),
            decreases dirs@.len() - i,
        {
            proof {
                if mem_inv(old(self)@) {
                    lemma_inv_add_node(self@, dirs@[i as int].spec_bytes(), FileType::Directory);
                }
            }
            proof {
                assert(dirs@.subrange(0, i as int + 1).drop_last() =~= dirs@.subrange(0, i as int));
            }
            let _ = self.add_node(dirs[i].as_bytes(), FileType::Directory);
            i = i + 1;
        }
        proof {
            assert(dirs@.subrange(0, dirs@.len() as int) =~= dirs@);
        }
    }
}

/// Builds the root file system (the programs of `early`, the asset
/// directories and images, the programs of `late`) and mounts it as `/`.
pub fn init_root(early: &[(&str, &[u8])], asset_dirs: &[&str], assets: &[(&str, &'static [u8])], late: &[(&str, &[u8])]) -> (r: Result<VirtualFileSystem<MemFs>, VfsError>)
    ensures
        r matches Ok(v) && v.wf() && v.files() == Map::<FileDescriptor, FileHandle>::empty()
            && (v.root_fs matches Some(fs) && fs@ == root_image(early@, asset_dirs@, assets@, late@)),
{
    let mut fs = MemFs::empty();
    proof {
        assert(fs@ =~= MemFsView { nodes: Seq::empty(), handles: Seq::empty(), next_handle: 1 });
        assert(mem_inv(fs@));
    }
    fs.add_files(early);
    fs.add_dirs(asset_dirs);
    fs.add_static_files(assets);
    fs.add_files(late);
    let mut vfs: VirtualFileSystem<MemFs> = VirtualFileSystem::new();
    proof {
        reveal_strlit("/");
        assert(vstd::string::is_ascii("/"));
        vstd::string::is_ascii_spec_bytes("/");
        assert("/".spec_bytes() =~= seq![47u8]);
    }
    match vfs.mount("/", fs) {
        Ok(()) => {},
        Err(e) => return Err(e),
    }
    Ok(vfs)
}

} // verus!
