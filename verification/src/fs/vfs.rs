//! The virtual file system: open flags, directory entries, errors, the
//! file-system interface, path normalization and the descriptor table that
//! maps descriptors to handles of the mounted root file system.
use vstd::prelude::*;
use vstd::string::StringSliceAdditionalSpecFns;
use crate::assoc::{keys_unique, to_map, lemma_lookup_at, lemma_lookup_none, lemma_push, lemma_remove};

verus! {

pub type FileDescriptor = u32;
pub type FileHandle = usize;

pub const OPEN_READ: u32 = 1;
pub const OPEN_WRITE: u32 = 2;
pub const OPEN_CREATE: u32 = 4;
pub const OPEN_TRUNC: u32 = 8;
pub const OPEN_APPEND: u32 = 16;
/// Every known open flag.
pub const OPEN_VALID_BITS: u32 = 31;

/// What reading alone asks for.
pub proof fn lemma_read_flags()
    ensures
        flags_valid(OPEN_READ),
        flag_set(OPEN_READ, OPEN_READ),
        !flag_set(OPEN_READ, OPEN_WRITE),
        !flag_set(OPEN_READ, OPEN_TRUNC),
        !flag_set(OPEN_READ, OPEN_APPEND),
{
    assert(1u32 & !31u32 == 0 && 1u32 & 1u32 == 1u32 && 1u32 & 2u32 != 2u32 && 1u32 & 8u32 != 8u32 && 1u32 & 16u32 != 16u32) by (bit_vector);
}

/// Flags of an open request.
#[derive(Debug, Clone, Copy, PartialEq, Eq, Structural)]
pub struct OpenFlags {
    pub bits: u32,
}

/// Whether `bits` holds every bit of `other`.
pub open spec fn flag_set(bits: u32, other: u32) -> bool {
    bits & other == other
}

/// A request is valid when it names only known flags, asks to read or
/// write, and truncates or appends only when writing.
pub open spec fn flags_valid(bits: u32) -> bool {
    &&& bits & !OPEN_VALID_BITS == 0
    &&& (flag_set(bits, OPEN_READ) || flag_set(bits, OPEN_WRITE))
    &&& ((!flag_set(bits, OPEN_TRUNC) && !flag_set(bits, OPEN_APPEND)) || flag_set(bits, OPEN_WRITE))
}

impl OpenFlags {
    pub fn flag_read() -> (r: Self)
        ensures
            r.bits == OPEN_READ,
    {
        OpenFlags { bits: OPEN_READ }
    }

    pub fn flag_write() -> (r: Self)
        ensures
            r.bits == OPEN_WRITE,
    {
        OpenFlags { bits: OPEN_WRITE }
    }

    pub fn flag_create() -> (r: Self)
        ensures
            r.bits == OPEN_CREATE,
    {
        OpenFlags { bits: OPEN_CREATE }
    }

    pub fn flag_trunc() -> (r: Self)
        ensures
            r.bits == OPEN_TRUNC,
    {
        OpenFlags { bits: OPEN_TRUNC }
    }

    pub fn flag_append() -> (r: Self)
        ensures
            r.bits == OPEN_APPEND,
    {
        OpenFlags { bits: OPEN_APPEND }
    }

    pub fn flag_read_write() -> (r: Self)
        ensures
            r.bits == OPEN_READ | OPEN_WRITE,
    {
        OpenFlags { bits: OPEN_READ | OPEN_WRITE }
    }

    pub fn from_bits(bits: u32) -> (r: Self)
        ensures
            r.bits == bits,
    {
        OpenFlags { bits }
    }

    pub fn bits(self) -> (r: u32)
        ensures
            r == self.bits,
    {
        self.bits
    }

    pub fn contains(self, other: OpenFlags) -> (r: bool)
        ensures
            r == flag_set(self.bits, other.bits),
    {
        (self.bits & other.bits) == other.bits
    }

    pub fn can_read(self) -> (r: bool)
        ensures
            r == flag_set(self.bits, OPEN_READ),
    {
        (self.bits & OPEN_READ) == OPEN_READ
    }

    pub fn can_write(self) -> (r: bool)
        ensures
            r == flag_set(self.bits, OPEN_WRITE),
    {
        (self.bits & OPEN_WRITE) == OPEN_WRITE
    }

    pub fn create(self) -> (r: bool)
        ensures
            r == flag_set(self.bits, OPEN_CREATE),
    {
        (self.bits & OPEN_CREATE) == OPEN_CREATE
    }

    pub fn trunc(self) -> (r: bool)
        ensures
            r == flag_set(self.bits, OPEN_TRUNC),
    {
        (self.bits & OPEN_TRUNC) == OPEN_TRUNC
    }

    pub fn append(self) -> (r: bool)
        ensures
            r == flag_set(self.bits, OPEN_APPEND),
    {
        (self.bits & OPEN_APPEND) == OPEN_APPEND
    }

    pub fn is_valid(self) -> (r: bool)
        ensures
            r == flags_valid(self.bits),
    {
        let has_unknown = (self.bits & !OPEN_VALID_BITS) != 0;
        let has_access_mode = self.can_read() || self.can_write();
        let write_only_modifiers_ok = (!self.trunc() && !self.append()) || self.can_write();
        !has_unknown && has_access_mode && write_only_modifiers_ok
    }
}

#[derive(Debug, Clone, Copy, PartialEq, Eq, Structural)]
pub enum FileType {
    File,
    Directory,
    Device,
}

/// A directory entry: a name of at most 64 bytes and a type.
#[derive(Debug, Clone, Copy)]
pub struct DirEntry {
    pub name: [u8; 64],
    pub name_len: usize,
    pub file_type: FileType,
}

/// The name an entry holds.
pub open spec fn dir_entry_name(e: DirEntry) -> Seq<u8> {
    e.name@.subrange(0, e.name_len as int)
}

/// `name` cut to 64 bytes.
pub open spec fn cut_name(name: Seq<u8>) -> Seq<u8> {
    if name.len() <= 64 { name } else { name.subrange(0, 64) }
}

impl DirEntry {
    pub fn empty() -> (r: Self)
        ensures
            r.name_len == 0,
            r.file_type == FileType::File,
            r.name@ == Seq::new(64, |i: int| 0u8),
    {
        let r = DirEntry { name: [0u8; 64], name_len: 0, file_type: FileType::File };
        assert(r.name@ =~= Seq::new(64, |i: int| 0u8));
        r
    }

    /// An entry named by the first 64 bytes of `name`.
    pub fn new(name: &[u8], file_type: FileType) -> (r: Self)
        ensures
            r.file_type == file_type,
            r.name_len <= 64,
            dir_entry_name(r) == cut_name(name@),
    {
        let mut entry = DirEntry { name: [0u8; 64], name_len: 0, file_type };
        let len = if name.len() < 64 { name.len() } else { 64 };
        let mut idx: usize = 0;
        while idx < len
            invariant
                len <= 64,
                len <= name@.len(),
                idx <= len,
                entry.name@.len() == 64,
                entry.file_type == file_type,
                forall|j: int| 0 <= j < idx ==> entry.name@[j] == name@[j],
            decreases len - idx,
        {
            entry.name[idx] = name[idx];
            idx = idx + 1;
        }
        entry.name_len = len;
        proof {
            assert(dir_entry_name(entry) =~= cut_name(name@));
        }
        entry
    }

    /// The entry's name bytes.
    pub fn name_bytes(&self) -> (r: Vec<u8>)
        requires
            self.name_len <= 64,
        ensures
            r@ == dir_entry_name(*self),
    {
        let mut out: Vec<u8> = Vec::new();
        let mut i: usize = 0;
        while i < self.name_len
            invariant
                self.name_len <= 64,
                i <= self.name_len,
                out@ == self.name@.subrange(0, i as int),
            decreases self.name_len - i,
        {
            out.push(self.name[i]);
            proof {
                assert(out@ =~= self.name@.subrange(0, i as int + 1));
            }
            i = i + 1;
        }
        out
    }

    /// The entry's name as text: its bytes when they are UTF-8, else
    /// `<invalid>`.
    pub fn name(&self) -> (r: Vec<u8>)
        ensures
            r@ == entry_text(*self),
    {
        if self.name_len > 64 {
            return vstd::slice::slice_to_vec("<invalid>".as_bytes());
        }
        let b = self.name_bytes();
        match crate::text::str_from_utf8(b.as_slice()) {
            Some(_) => b,
            None => vstd::slice::slice_to_vec("<invalid>".as_bytes()),
        }
    }
}

/// The name an entry shows: `<invalid>` when its bytes are not UTF-8.
pub open spec fn entry_text(e: DirEntry) -> Seq<u8> {
    if e.name_len <= 64 && vstd::utf8::valid_utf8(dir_entry_name(e)) { dir_entry_name(e) } else { "<invalid>".spec_bytes() }
}

#[derive(Debug, Clone, Copy, PartialEq, Eq, Structural)]
pub struct FileStat {
    pub file_type: FileType,
    pub size: usize,
}

#[derive(Debug, Clone, Copy, PartialEq, Eq, Structural)]
pub enum VfsError {
    NotFound,
    PermissionDenied,
    InvalidDescriptor,
    AlreadyExists,
    NotADirectory,
    IsADirectory,
    InvalidPath,
    Unsupported,
    IoError,
}

impl VfsError {
    /// The human-readable message of the error.
    pub fn message(&self) -> (r: &'static str)
        ensures
            r@ == vfs_error_message(*self)@,
    {
        match self {
            VfsError::NotFound => "File not found",
            VfsError::PermissionDenied => "Permission denied",
            VfsError::InvalidDescriptor => "Invalid file descriptor",
            VfsError::AlreadyExists => "File already exists",
            VfsError::NotADirectory => "Not a directory",
            VfsError::IsADirectory => "Is a directory",
            VfsError::InvalidPath => "Invalid path",
            VfsError::Unsupported => "Operation unsupported",
            VfsError::IoError => "I/O error",
        }
    }
}

pub open spec fn vfs_error_message(e: VfsError) -> &'static str {
    match e {
        VfsError::NotFound => "File not found",
        VfsError::PermissionDenied => "Permission denied",
        VfsError::InvalidDescriptor => "Invalid file descriptor",
        VfsError::AlreadyExists => "File already exists",
        VfsError::NotADirectory => "Not a directory",
        VfsError::IsADirectory => "Is a directory",
        VfsError::InvalidPath => "Invalid path",
        VfsError::Unsupported => "Operation unsupported",
        VfsError::IoError => "I/O error",
    }
}


/// The parts of `s` between slashes (split semantics: `"a/b"` has two,
/// `"/a"` has an empty first part, `""` has one empty part).
pub open spec fn components(s: Seq<u8>) -> Seq<Seq<u8>>
    decreases s.len(),
{
    if s.len() == 0 {
        seq![Seq::<u8>::empty()]
    } else {
        let c = components(s.drop_last());
        if s.last() == 47u8 {
            c.push(Seq::<u8>::empty())
        } else {
            c.update(c.len() - 1, c.last().push(s.last()))
        }
    }
}

proof fn lemma_components_nonempty(s: Seq<u8>)
    ensures
        components(s).len() >= 1,
    decreases s.len(),
{
    if s.len() > 0 {
        lemma_components_nonempty(s.drop_last());
    }
}

/// The absolute path naming a stack of components.
pub open spec fn render(stack: Seq<Seq<u8>>) -> Seq<u8>
    decreases stack.len(),
{
    if stack.len() == 0 {
        seq![47u8]
    } else if stack.len() == 1 {
        seq![47u8] + stack[0]
    } else {
        render(stack.drop_last()) + seq![47u8] + stack.last()
    }
}

/// One step of normalization: empty and `.` parts are skipped, `..` drops
/// the last component (none at the root), any other part is pushed unless
/// the rendered path would pass 256 bytes, which fails the whole path.
pub open spec fn step(st: Option<Seq<Seq<u8>>>, part: Seq<u8>) -> Option<Seq<Seq<u8>>> {
    match st {
        None => None,
        Some(stack) => if part.len() == 0 || part == seq![46u8] {
            Some(stack)
        } else if part == seq![46u8, 46u8] {
            Some(if stack.len() == 0 { stack } else { stack.drop_last() })
        } else if render(stack.push(part)).len() > 256 {
            None
        } else {
            Some(stack.push(part))
        },
    }
}

pub open spec fn fold_parts(st: Option<Seq<Seq<u8>>>, parts: Seq<Seq<u8>>) -> Option<Seq<Seq<u8>>>
    decreases parts.len(),
{
    if parts.len() == 0 {
        st
    } else {
        step(fold_parts(st, parts.drop_last()), parts.last())
    }
}

/// Normalization of `path` against the working directory `cwd`: a relative
/// (or empty) path starts from `cwd`, an absolute one from the root.
pub open spec fn normalized(path: Seq<u8>, cwd: Seq<u8>) -> Option<Seq<Seq<u8>>> {
    let root = Some(Seq::<Seq<u8>>::empty());
    if path.len() == 0 {
        fold_parts(root, components(cwd))
    } else if path[0] != 47u8 {
        fold_parts(fold_parts(root, components(cwd)), components(path))
    } else {
        fold_parts(root, components(path))
    }
}

/// The normalized path as bytes, if it fits.
pub open spec fn normalized_path(path: Seq<u8>, cwd: Seq<u8>) -> Option<Seq<u8>> {
    match normalized(path, cwd) {
        Some(stack) => Some(render(stack)),
        None => None,
    }
}

/// Every component is non-empty and slash-free.
pub open spec fn clean_stack(stack: Seq<Seq<u8>>) -> bool {
    forall|i: int| 0 <= i < stack.len() ==> (#[trigger] stack[i]).len() > 0 && !stack[i].contains(47u8)
}

proof fn lemma_render_push(stack: Seq<Seq<u8>>, part: Seq<u8>)
    ensures
        render(stack.push(part)) == render(stack) + (if stack.len() == 0 { Seq::<u8>::empty() } else { seq![47u8] }) + part,
{
    let s2 = stack.push(part);
    assert(s2.drop_last() =~= stack);
    if stack.len() == 0 {
        assert(render(s2) =~= seq![47u8] + part);
        assert(render(stack) + Seq::<u8>::empty() + part =~= seq![47u8] + part);
    }
}

proof fn lemma_render_len(stack: Seq<Seq<u8>>)
    ensures
        render(stack).len() >= 1,
        render(stack)[0] == 47u8,
        stack.len() > 0 && stack.last().len() > 0 ==> render(stack).len() > 1,
    decreases stack.len(),
{
    if stack.len() > 1 {
        lemma_render_len(stack.drop_last());
    }
}

/// A component a normalized path can hold: non-empty, slash-free, and
/// neither `.` nor `..`.
pub open spec fn good_part(p: Seq<u8>) -> bool {
    p.len() > 0 && p != seq![46u8] && p != seq![46u8, 46u8] && !p.contains(47u8)
}

/// A stack normalization can produce: good components, rendered within 256
/// bytes.
pub open spec fn good_stack(st: Seq<Seq<u8>>) -> bool {
    &&& forall|i: int| 0 <= i < st.len() ==> good_part(#[trigger] st[i])
    &&& render(st).len() <= 256
}

proof fn lemma_components_slash_free(s: Seq<u8>)
    ensures
        forall|i: int| 0 <= i < components(s).len() ==> !(#[trigger] components(s)[i]).contains(47u8),
    decreases s.len(),
{
    if s.len() > 0 {
        let c = components(s.drop_last());
        lemma_components_slash_free(s.drop_last());
        lemma_components_nonempty(s.drop_last());
        if s.last() != 47u8 {
            let l = c.last().push(s.last());
            assert(!l.contains(47u8)) by {
                if l.contains(47u8) {
                    let j = choose|j: int| 0 <= j < l.len() && l[j] == 47u8;
                    if j < c.last().len() {
                        assert(c.last()[j] == 47u8);
                        assert(c[c.len() - 1].contains(47u8));
                    }
                }
            }
        }
    }
}

proof fn lemma_render_drop(st: Seq<Seq<u8>>)
    requires
        st.len() > 0,
    ensures
        render(st.drop_last()).len() <= render(st).len(),
{
    lemma_render_push(st.drop_last(), st.last());
    assert(st.drop_last().push(st.last()) =~= st);
}

proof fn lemma_render_prefix(st: Seq<Seq<u8>>, n: int)
    requires
        0 <= n <= st.len(),
    ensures
        render(st.take(n)).len() <= render(st).len(),
    decreases st.len() - n,
{
    if n < st.len() {
        lemma_render_prefix(st, n + 1);
        lemma_render_push(st.take(n), st[n]);
        assert(st.take(n).push(st[n]) =~= st.take(n + 1));
    } else {
        assert(st.take(n) =~= st);
    }
}

proof fn lemma_fold_from_none(parts: Seq<Seq<u8>>)
    ensures
        fold_parts(None, parts) is None,
    decreases parts.len(),
{
    if parts.len() > 0 {
        lemma_fold_from_none(parts.drop_last());
    }
}

proof fn lemma_fold_good(st0: Seq<Seq<u8>>, parts: Seq<Seq<u8>>)
    requires
        good_stack(st0),
        forall|i: int| 0 <= i < parts.len() ==> !(#[trigger] parts[i]).contains(47u8),
    ensures
        fold_parts(Some(st0), parts) matches Some(st) ==> good_stack(st),
    decreases parts.len(),
{
    if parts.len() > 0 {
        let r = parts.drop_last();
        assert forall|i: int| 0 <= i < r.len() implies !(#[trigger] r[i]).contains(47u8) by {
            assert(r[i] == parts[i]);
        }
        lemma_fold_good(st0, r);
        match fold_parts(Some(st0), r) {
            None => {},
            Some(st) => {
                let part = parts.last();
                assert(!parts[parts.len() - 1].contains(47u8));
                if part.len() == 0 || part == seq![46u8] {
                } else if part == seq![46u8, 46u8] {
                    if st.len() > 0 {
                        lemma_render_drop(st);
                        assert forall|i: int| 0 <= i < st.drop_last().len() implies good_part(#[trigger] st.drop_last()[i]) by {
                            assert(st.drop_last()[i] == st[i]);
                        }
                    }
                } else if render(st.push(part)).len() <= 256 {
                    assert forall|i: int| 0 <= i < st.push(part).len() implies good_part(#[trigger] st.push(part)[i]) by {
                        if i < st.len() {
                            assert(st.push(part)[i] == st[i]);
                        }
                    }
                }
            },
        }
    }
}

/// Every stack normalization produces is good.
proof fn lemma_normalized_good(path: Seq<u8>, cwd: Seq<u8>)
    ensures
        normalized(path, cwd) matches Some(st) ==> good_stack(st),
{
    let root = Seq::<Seq<u8>>::empty();
    assert(render(root) == seq![47u8]);
    lemma_components_slash_free(cwd);
    lemma_components_slash_free(path);
    lemma_fold_good(root, components(cwd));
    lemma_fold_good(root, components(path));
    if path.len() > 0 && path[0] != 47u8 {
        match fold_parts(Some(root), components(cwd)) {
            Some(st1) => {
                lemma_fold_good(st1, components(path));
            },
            None => {
                lemma_fold_from_none(components(path));
            },
        }
    }
}

proof fn lemma_components_slash(a: Seq<u8>)
    ensures
        components(a + seq![47u8]) == components(a).push(Seq::<u8>::empty()),
{
    assert((a + seq![47u8]).drop_last() =~= a);
}

proof fn lemma_components_append(b: Seq<u8>, p: Seq<u8>)
    requires
        !p.contains(47u8),
    ensures
        components(b + p) == components(b).update(components(b).len() - 1, components(b).last() + p),
    decreases p.len(),
{
    lemma_components_nonempty(b);
    let cb = components(b);
    if p.len() == 0 {
        assert(b + p =~= b);
        assert(cb.last() + p =~= cb.last());
        assert(cb.update(cb.len() - 1, cb.last()) =~= cb);
    } else {
        let q = p.drop_last();
        assert(!q.contains(47u8)) by {
            if q.contains(47u8) {
                let j = choose|j: int| 0 <= j < q.len() && q[j] == 47u8;
                assert(p[j] == 47u8);
            }
        }
        lemma_components_append(b, q);
        assert((b + p).drop_last() =~= b + q);
        assert((b + p).last() == p.last());
        assert(p.last() != 47u8) by {
            assert(p[p.len() - 1] == p.last());
        }
        assert((cb.last() + q).push(p.last()) =~= cb.last() + p);
        assert(cb.update(cb.len() - 1, cb.last() + q).update(cb.len() - 1, cb.last() + p) =~= cb.update(cb.len() - 1, cb.last() + p));
    }
}

proof fn lemma_components_render(st: Seq<Seq<u8>>)
    requires
        st.len() > 0,
        forall|i: int| 0 <= i < st.len() ==> !(#[trigger] st[i]).contains(47u8),
    ensures
        components(render(st)) == seq![Seq::<u8>::empty()] + st,
    decreases st.len(),
{
    let e = Seq::<u8>::empty();
    if st.len() == 1 {
        assert(render(st) == seq![47u8] + st[0]);
        assert(seq![47u8] =~= Seq::<u8>::empty() + seq![47u8]);
        lemma_components_slash(Seq::<u8>::empty());
        assert(components(Seq::<u8>::empty()) == seq![e]);
        assert(components(seq![47u8]) =~= seq![e, e]);
        assert(!st[0].contains(47u8));
        lemma_components_append(seq![47u8], st[0]);
        assert(e + st[0] =~= st[0]);
        assert(seq![e, e].update(1, e + st[0]) =~= seq![e] + st);
    } else {
        let s1 = st.drop_last();
        assert forall|i: int| 0 <= i < s1.len() implies !(#[trigger] s1[i]).contains(47u8) by {
            assert(s1[i] == st[i]);
        }
        lemma_components_render(s1);
        assert(render(st) == render(s1) + seq![47u8] + st.last());
        lemma_components_slash(render(s1));
        assert(!st[st.len() - 1].contains(47u8));
        lemma_components_append(render(s1) + seq![47u8], st.last());
        let c = (seq![e] + s1).push(e);
        assert(e + st.last() =~= st.last());
        assert(c.update(c.len() - 1, e + st.last()) =~= seq![e] + st);
    }
}

proof fn lemma_fold_render(st: Seq<Seq<u8>>, n: int)
    requires
        good_stack(st),
        0 <= n <= st.len(),
    ensures
        fold_parts(Some(Seq::<Seq<u8>>::empty()), seq![Seq::<u8>::empty()] + st.take(n)) == Some(st.take(n)),
    decreases n,
{
    let e = Seq::<u8>::empty();
    let root = Some(Seq::<Seq<u8>>::empty());
    if n == 0 {
        let ps = seq![e] + st.take(0);
        assert(ps =~= seq![e]);
        assert(ps.drop_last() =~= Seq::<Seq<u8>>::empty());
        assert(fold_parts(root, ps.drop_last()) == root);
        assert(fold_parts(root, ps) == step(root, e));
        assert(st.take(0) =~= Seq::<Seq<u8>>::empty());
    } else {
        lemma_fold_render(st, n - 1);
        let ps = seq![e] + st.take(n);
        assert(ps.drop_last() =~= seq![e] + st.take(n - 1));
        assert(ps.last() == st[n - 1]);
        assert(good_part(st[n - 1]));
        assert(st.take(n - 1).push(st[n - 1]) =~= st.take(n));
        lemma_render_prefix(st, n);
        assert(fold_parts(root, ps) == step(fold_parts(root, ps.drop_last()), ps.last()));
        assert(fold_parts(root, ps.drop_last()) == Some(st.take(n - 1)));
        assert(render(st.take(n - 1).push(st[n - 1])).len() <= 256);
    }
}

/// Normalizing is idempotent, and a normalized path ignores the working
/// directory: the result normalizes to itself against any `cwd2`. An
/// absolute path normalizes the same against every working directory.
pub proof fn lemma_normalize_idempotent(path: Seq<u8>, cwd: Seq<u8>, cwd2: Seq<u8>)
    ensures
        normalized_path(path, cwd) matches Some(s) ==> normalized_path(s, cwd2) == Some(s),
        path.len() > 0 && path[0] == 47u8 ==> normalized_path(path, cwd2) == normalized_path(path, cwd),
{
    lemma_normalized_good(path, cwd);
    match normalized(path, cwd) {
        None => {},
        Some(st) => {
            let s = render(st);
            lemma_render_len(st);
            let e = Seq::<u8>::empty();
            if st.len() == 0 {
                assert(s == seq![47u8]);
                lemma_components_slash(e);
                assert(seq![47u8] =~= e + seq![47u8]);
                assert(components(e) == seq![e]);
                let ps = components(s);
                let root = Some(Seq::<Seq<u8>>::empty());
                assert(ps =~= seq![e, e]);
                assert(ps.drop_last() =~= seq![e]);
                assert(seq![e].drop_last() =~= Seq::<Seq<u8>>::empty());
                assert(fold_parts(root, seq![e].drop_last()) == root);
                assert(fold_parts(root, seq![e]) == root);
                assert(fold_parts(root, ps) == root);
                assert(normalized(s, cwd2) == fold_parts(root, ps));
            } else {
                assert forall|i: int| 0 <= i < st.len() implies !(#[trigger] st[i]).contains(47u8) by {
                    assert(good_part(st[i]));
                }
                lemma_components_render(st);
                lemma_fold_render(st, st.len() as int);
                assert(st.take(st.len() as int) =~= st);
                assert(s.len() > 0 && s[0] == 47u8);
                assert(normalized(s, cwd2) == fold_parts(Some(Seq::<Seq<u8>>::empty()), components(s)));
                assert(normalized(s, cwd2) == Some(st));
            }
        },
    }
}

/// Applies one part, `path[start..end]`, to the path in `out[..len]`;
/// `false` when it would not fit.
fn apply_part(path: &[u8], start: usize, end: usize, out: &mut [u8; 256], len: &mut usize, Ghost(st): Ghost<Seq<Seq<u8>>>) -> (r: (bool, Ghost<Seq<Seq<u8>>>))
    requires
        start <= end <= path@.len(),
        1 <= *old(len) <= 256,
        old(out)@.subrange(0, *old(len) as int) == render(st),
        clean_stack(st),
        !path@.subrange(start as int, end as int).contains(47u8),
    ensures
        r.0 <==> step(Some(st), path@.subrange(start as int, end as int)) is Some,
        r.0 ==> step(Some(st), path@.subrange(start as int, end as int)) == Some(r.1@)
            && 1 <= *final(len) <= 256
            && final(out)@.subrange(0, *final(len) as int) == render(r.1@)
            && clean_stack(r.1@),
{
    let ghost part = path@.subrange(start as int, end as int);
    let plen = end - start;
    let is_dot = plen == 1 && path[start] == 46u8;
    let is_dotdot = plen == 2 && path[start] == 46u8 && path[start + 1] == 46u8;
    proof {
        assert(is_dot <==> part == seq![46u8]) by {
            if plen == 1 {
                assert(part.len() == 1 && part[0] == path@[start as int]);
                if path@[start as int] == 46u8 {
                    assert(part =~= seq![46u8]);
                }
            }
        }
        assert(is_dotdot <==> part == seq![46u8, 46u8]) by {
            if plen == 2 {
                assert(part[0] == path@[start as int] && part[1] == path@[start as int + 1]);
                if path@[start as int] == 46u8 && path@[start as int + 1] == 46u8 {
                    assert(part =~= seq![46u8, 46u8]);
                }
            }
        }
    }
    if plen == 0 || is_dot {
        return (true, Ghost(st));
    }
    if is_dotdot {
        pop_path_component(out, len, Ghost(st));
        let ghost st2 = if st.len() == 0 { st } else { st.drop_last() };
        proof {
            assert(clean_stack(st2)) by {
                assert forall|k: int| 0 <= k < st2.len() implies (#[trigger] st2[k]).len() > 0 && !st2[k].contains(47u8) by {
                    assert(st2[k] == st[k]);
                }
            }
        }
        return (true, Ghost(st2));
    }
    let needs_slash = *len > 1;
    proof {
        lemma_render_push(st, part);
        lemma_render_len(st);
        if st.len() > 0 {
            assert(st.last().len() > 0);
        }
        assert(needs_slash <==> st.len() > 0);
    }
    let room = 256 - *len;
    let slash: usize = if needs_slash { 1 } else { 0 };
    if plen > room || plen + slash > room {
        return (false, Ghost(st));
    }
    push_path_component(path, start, end, out, len, Ghost(st));
    let ghost st2 = st.push(part);
    proof {
        assert(clean_stack(st2)) by {
            assert forall|k: int| 0 <= k < st2.len() implies (#[trigger] st2[k]).len() > 0 && !st2[k].contains(47u8) by {
                if k < st.len() {
                    assert(st2[k] == st[k]);
                }
            }
        }
    }
    (true, Ghost(st2))
}

/// Appends the parts of `path` to the path in `out[..len]`, following
/// `step`; `false` when the path would not fit.
fn append_path_components(path: &[u8], out: &mut [u8; 256], len: &mut usize, Ghost(stack): Ghost<Seq<Seq<u8>>>) -> (r: (bool, Ghost<Seq<Seq<u8>>>))
    requires
        1 <= *old(len) <= 256,
        old(out)@.subrange(0, *old(len) as int) == render(stack),
        clean_stack(stack),
    ensures
        r.0 <==> fold_parts(Some(stack), components(path@)) is Some,
        r.0 ==> fold_parts(Some(stack), components(path@)) == Some(r.1@)
            && 1 <= *final(len) <= 256
            && final(out)@.subrange(0, *final(len) as int) == render(r.1@)
            && clean_stack(r.1@),
{
    let ghost mut st = stack;
    let mut start: usize = 0;
    let mut i: usize = 0;
    while i < path.len()
        invariant
            start <= i <= path@.len(),
            1 <= *len <= 256,
            out@.subrange(0, *len as int) == render(st),
            clean_stack(st),
            components(path@.subrange(0, i as int)).len() >= 1,
            components(path@.subrange(0, i as int)).last() == path@.subrange(start as int, i as int),
            fold_parts(Some(stack), components(path@.subrange(0, i as int)).drop_last()) == Some(st),
            !path@.subrange(start as int, i as int).contains(47u8),
        decreases path@.len() - i,
    {
        let ghost pre = path@.subrange(0, i as int);
        let ghost pre1 = path@.subrange(0, i as int + 1);
        proof {
            assert(pre1.drop_last() =~= pre);
        }
        if path[i] == 47u8 {
            let ghost part = path@.subrange(start as int, i as int);
            let (ok, Ghost(st2)) = apply_part(path, start, i, out, len, Ghost(st));
            if !ok {
                proof {
                    lemma_fold_none(path@, i as int, stack, st);
                }
                return (false, Ghost(st));
            }
            proof {
                let c = components(pre);
                assert(components(pre1) == c.push(Seq::<u8>::empty()));
                assert(components(pre1).drop_last() =~= c);
                assert(c.drop_last().push(part) =~= c);
                assert(fold_parts(Some(stack), c) == step(fold_parts(Some(stack), c.drop_last()), c.last()));
                st = st2;
                assert(path@.subrange(i as int + 1, i as int + 1) =~= Seq::<u8>::empty());
            }
            start = i + 1;
        } else {
            proof {
                let c = components(pre);
                assert(components(pre1) == c.update(c.len() - 1, c.last().push(path@[i as int])));
                assert(components(pre1).drop_last() =~= c.drop_last());
                assert(path@.subrange(start as int, i as int + 1) =~= path@.subrange(start as int, i as int).push(path@[i as int]));
                assert(!path@.subrange(start as int, i as int + 1).contains(47u8)) by {
                    let q = path@.subrange(start as int, i as int + 1);
                    if q.contains(47u8) {
                        let k = choose|k: int| 0 <= k < q.len() && q[k] == 47u8;
                        if k < q.len() - 1 {
                            assert(path@.subrange(start as int, i as int)[k] == 47u8);
                        }
                    }
                }
            }
        }
        i = i + 1;
    }
    proof {
        assert(path@.subrange(0, path@.len() as int) =~= path@);
    }
    let ghost part = path@.subrange(start as int, path@.len() as int);
    let (ok, Ghost(st2)) = apply_part(path, start, path.len(), out, len, Ghost(st));
    proof {
        let c = components(path@);
        assert(c.drop_last().push(part) =~= c);
        assert(fold_parts(Some(stack), c) == step(fold_parts(Some(stack), c.drop_last()), c.last()));
    }
    (ok, Ghost(st2))
}

proof fn lemma_fold_none_suffix(st: Option<Seq<Seq<u8>>>, parts: Seq<Seq<u8>>, k: int)
    requires
        0 <= k <= parts.len(),
        fold_parts(st, parts.subrange(0, k)) is None,
    ensures
        fold_parts(st, parts) is None,
    decreases parts.len() - k,
{
    if k < parts.len() {
        let p1 = parts.subrange(0, k + 1);
        assert(p1.drop_last() =~= parts.subrange(0, k));
        lemma_fold_none_suffix(st, parts, k + 1);
    } else {
        assert(parts.subrange(0, k) =~= parts);
    }
}

/// A failing part at a slash at `i` fails the whole path.
proof fn lemma_fold_none(path: Seq<u8>, i: int, stack: Seq<Seq<u8>>, st: Seq<Seq<u8>>)
    requires
        0 <= i < path.len(),
        path[i] == 47u8,
        components(path.subrange(0, i)).len() >= 1,
        fold_parts(Some(stack), components(path.subrange(0, i)).drop_last()) == Some(st),
        step(Some(st), components(path.subrange(0, i)).last()) is None,
    ensures
        fold_parts(Some(stack), components(path)) is None,
{
    let pre = path.subrange(0, i);
    let b = path.subrange(0, i + 1);
    assert(b.drop_last() =~= pre);
    let c = components(pre);
    assert(components(b) == c.push(Seq::<u8>::empty()));
    assert(components(b).drop_last() =~= c);
    lemma_components_prefix(path, i + 1);
    let full = components(path);
    assert(c =~= full.subrange(0, c.len() as int));
    assert(c.drop_last().push(c.last()) =~= c);
    assert(fold_parts(Some(stack), c) is None);
    lemma_fold_none_suffix(Some(stack), full, c.len() as int);
}

/// The parts of a prefix agree with those of the whole, but for the last.
proof fn lemma_components_prefix(s: Seq<u8>, i: int)
    requires
        0 <= i <= s.len(),
    ensures
        components(s.subrange(0, i)).len() >= 1,
        components(s.subrange(0, i)).len() <= components(s).len(),
        components(s.subrange(0, i)).drop_last() == components(s).subrange(0, components(s.subrange(0, i)).len() - 1),
    decreases s.len() - i,
{
    lemma_components_nonempty(s.subrange(0, i));
    if i == s.len() {
        assert(s.subrange(0, i) =~= s);
        let c = components(s);
        assert(c.drop_last() =~= c.subrange(0, c.len() - 1));
    } else {
        lemma_components_prefix(s, i + 1);
        let a = s.subrange(0, i);
        let b = s.subrange(0, i + 1);
        assert(b.drop_last() =~= a);
        let ca = components(a);
        let cb = components(b);
        let full = components(s);
        if s[i] == 47u8 {
            assert(cb == ca.push(Seq::<u8>::empty()));
            assert(cb.drop_last() =~= ca);
            assert(ca.drop_last() =~= full.subrange(0, ca.len() - 1));
        } else {
            assert(cb == ca.update(ca.len() - 1, ca.last().push(s[i])));
            assert(cb.drop_last() =~= ca.drop_last());
        }
    }
}

/// Appends `path[start..end]` as one more component of `out[..len]`.
fn push_path_component(path: &[u8], start: usize, end: usize, out: &mut [u8; 256], len: &mut usize, Ghost(stack): Ghost<Seq<Seq<u8>>>)
    requires
        start < end <= path@.len(),
        1 <= *old(len) <= 256,
        old(out)@.subrange(0, *old(len) as int) == render(stack),
        (*old(len) > 1) == (stack.len() > 0),
        *old(len) + (end - start) + (if *old(len) > 1 { 1int } else { 0int }) <= 256,
    ensures
        final(out)@.subrange(0, *final(len) as int) == render(stack.push(path@.subrange(start as int, end as int))),
        1 <= *final(len) <= 256,
{
    let ghost part = path@.subrange(start as int, end as int);
    proof {
        lemma_render_push(stack, part);
    }
    let ghost base = out@.subrange(0, *len as int);
    if *len > 1 {
        out[*len] = 47u8;
        *len = *len + 1;
    }
    let ghost mid = *len;
    proof {
        assert(out@.subrange(0, mid as int) =~= render(stack) + (if stack.len() == 0 { Seq::<u8>::empty() } else { seq![47u8] }));
    }
    let mut k: usize = start;
    while k < end
        invariant
            start <= k <= end,
            end <= path@.len(),
            *len == mid + (k - start),
            mid + (end - start) <= 256,
            out@.len() == 256,
            out@.subrange(0, mid as int) == render(stack) + (if stack.len() == 0 { Seq::<u8>::empty() } else { seq![47u8] }),
            forall|j: int| mid <= j < *len ==> out@[j] == path@[start + (j - mid)],
        decreases end - k,
    {
        out[*len] = path[k];
        *len = *len + 1;
        k = k + 1;
    }
    proof {
        assert(out@.subrange(0, *len as int) =~= render(stack) + (if stack.len() == 0 { Seq::<u8>::empty() } else { seq![47u8] }) + part);
    }
}

/// Drops the last component of `out[..len]`, staying at the root.
fn pop_path_component(out: &[u8; 256], len: &mut usize, Ghost(stack): Ghost<Seq<Seq<u8>>>)
    requires
        1 <= *old(len) <= 256,
        out@.subrange(0, *old(len) as int) == render(stack),
        clean_stack(stack),
    ensures
        1 <= *final(len) <= *old(len),
        out@.subrange(0, *final(len) as int) == render(if stack.len() == 0 { stack } else { stack.drop_last() }),
{
    if *len <= 1 {
        *len = 1;
        proof {
            if stack.len() > 0 {
                lemma_render_len(stack);
                assert(stack.last().len() > 0);
            }
        }
        return;
    }
    proof {
        lemma_render_len(stack);
    }
    assert(stack.len() > 0) by {
        if stack.len() == 0 {
            assert(render(stack).len() == 1);
        }
    }
    let ghost rest = stack.drop_last();
    let ghost last = stack.last();
    let ghost p: int = if stack.len() == 1 { 0 } else { render(rest).len() as int };
    proof {
        assert(stack.drop_last().push(last) =~= stack);
        lemma_render_push(rest, last);
        lemma_render_len(rest);
        assert(!last.contains(47u8));
        assert(render(stack) =~= render(rest) + (if rest.len() == 0 { Seq::<u8>::empty() } else { seq![47u8] }) + last);
        if stack.len() == 1 {
            assert(rest.len() == 0);
            assert(render(stack) =~= seq![47u8] + last);
        }
        assert(render(stack).len() == *len);
        assert(render(stack)[p] == 47u8);
        assert(out@.subrange(0, *len as int)[p] == out@[p]);
        assert(out@[p] == 47u8);
        assert forall|j: int| p < j < *len implies out@[j] != 47u8 by {
            assert(out@.subrange(0, *len as int)[j] == out@[j]);
            assert(render(stack)[j] == last[j - p - 1]);
            if out@[j] == 47u8 {
                assert(last[j - p - 1] == 47u8);
                assert(last.contains(47u8));
            }
        }
    }
    let mut idx: usize = *len - 1;
    while idx > 0 && out[idx] != 47u8
        invariant
            p <= idx < *len,
            *len <= 256,
            out@[p] == 47u8,
            forall|j: int| p < j < *len ==> out@[j] != 47u8,
        decreases idx,
    {
        idx = idx - 1;
    }
    proof {
        assert(idx == p);
    }
    *len = if idx == 0 { 1 } else { idx };
    proof {
        if stack.len() == 1 {
            assert(out@.subrange(0, 1) =~= seq![47u8]);
        } else {
            assert(out@.subrange(0, p) =~= render(rest));
        }
    }
}

/// Normalizes `path` against `cwd` into `out`, returning the length of the
/// resulting absolute path.
pub fn normalize_path_into(path: &str, cwd: &str, out: &mut [u8; 256]) -> (r: Result<usize, VfsError>)
    ensures
        normalized_path(path.spec_bytes(), cwd.spec_bytes()) is None ==> r == Err::<usize, VfsError>(VfsError::InvalidPath),
        normalized_path(path.spec_bytes(), cwd.spec_bytes()) matches Some(p) ==>
            r == Ok::<usize, VfsError>(p.len() as usize) && final(out)@.subrange(0, p.len() as int) == p && p.len() <= 256,
{
    let p = path.as_bytes();
    let c = cwd.as_bytes();
    out[0] = 47u8;
    let mut len: usize = 1;
    proof {
        assert(out@.subrange(0, 1) =~= render(Seq::<Seq<u8>>::empty()));
    }
    let ghost root = Seq::<Seq<u8>>::empty();
    if p.len() == 0 {
        let (ok, Ghost(st)) = append_path_components(c, out, &mut len, Ghost(root));
        if !ok {
            return Err(VfsError::InvalidPath);
        }
    } else if p[0] != 47u8 {
        let (ok, Ghost(st)) = append_path_components(c, out, &mut len, Ghost(root));
        if !ok {
            proof {
                lemma_fold_none_parts(components(p@));
            }
            return Err(VfsError::InvalidPath);
        }
        let (ok2, Ghost(st2)) = append_path_components(p, out, &mut len, Ghost(st));
        if !ok2 {
            return Err(VfsError::InvalidPath);
        }
    } else {
        let (ok, Ghost(st)) = append_path_components(p, out, &mut len, Ghost(root));
        if !ok {
            return Err(VfsError::InvalidPath);
        }
    }
    Ok(len)
}

proof fn lemma_fold_none_parts(parts: Seq<Seq<u8>>)
    ensures
        fold_parts(None, parts) is None,
    decreases parts.len(),
{
    if parts.len() > 0 {
        lemma_fold_none_parts(parts.drop_last());
    }
}

/// The normalized absolute form of `path` against `cwd`.
pub fn normalize_path(path: &str, cwd: &str) -> (r: Result<Vec<u8>, VfsError>)
    ensures
        normalized_path(path.spec_bytes(), cwd.spec_bytes()) is None ==> r == Err::<Vec<u8>, VfsError>(VfsError::InvalidPath),
        normalized_path(path.spec_bytes(), cwd.spec_bytes()) matches Some(p) ==> r matches Ok(v) && v@ == p,
{
    let mut buffer = [0u8; 256];
    let len = match normalize_path_into(path, cwd, &mut buffer) {
        Ok(n) => n,
        Err(e) => return Err(e),
    };
    let mut out: Vec<u8> = Vec::new();
    let mut i: usize = 0;
    while i < len
        invariant
            len <= 256,
            i <= len,
            buffer@.len() == 256,
            out@ == buffer@.subrange(0, i as int),
        decreases len - i,
    {
        out.push(buffer[i]);
        proof {
            assert(out@ =~= buffer@.subrange(0, i as int + 1));
        }
        i = i + 1;
    }
    Ok(out)
}

/// What a file system says of an open handle: the key of the file it
/// works on, its position, whether writes go to the end, and whether it
/// may read and write.
pub struct HandleModel {
    pub path: Seq<u8>,
    pub offset: usize,
    pub append: bool,
    pub read: bool,
    pub write: bool,
}

/// The bytes a read of at most `cap` bytes at `offset` gets from `c`.
pub open spec fn read_part(c: Seq<u8>, offset: int, cap: int) -> Seq<u8> {
    let n = crate::fs::memfs::read_len(c.len() as int, offset, cap);
    if n <= 0 { Seq::empty() } else { c.subrange(offset, offset + n) }
}

/// What `open` of `path` with `flags` did, from state `a` to state `b`:
/// without truncation no stored file changes, other handles stay as they
/// were, and a fresh handle on a file (or on the file it just created)
/// starts at its beginning, or at its end when appending.
pub open spec fn opened<F: FileSystem>(a: F, b: F, path: Seq<u8>, flags: OpenFlags, r: Result<FileHandle, VfsError>) -> bool {
    let k = F::path_key(path);
    let trunc = flag_set(flags.bits, OPEN_TRUNC);
    let app = flag_set(flags.bits, OPEN_APPEND);
    &&& r matches Ok(h) ==> h == a.next_handle_model()
    &&& a.content_model(k) is Some && flags_valid(flags.bits) && !trunc ==> r is Ok
    &&& !trunc ==> forall|q: Seq<u8>| a.content_model(q) is Some ==> #[trigger] b.content_model(q) == a.content_model(q)
    &&& r is Err ==> forall|q: Seq<u8>| a.content_model(q) is Some ==> #[trigger] b.content_model(q) == a.content_model(q)
    &&& forall|h2: FileHandle| a.handle_model(h2) is Some ==> #[trigger] b.handle_model(h2) == a.handle_model(h2)
    &&& (r matches Ok(h) && a.handle_model(h) is None
        && (a.content_model(k) is Some || a.stat_model(path) == Err::<FileStat, VfsError>(VfsError::NotFound))) ==> {
        let start = if trunc || a.content_model(k) is None { Seq::<u8>::empty() } else { a.content_model(k)->0 };
        &&& b.content_model(k) == Some(start)
        &&& b.handle_model(r->Ok_0) == Some(HandleModel {
            path: k,
            offset: if app { start.len() as usize } else { 0usize },
            append: app,
            read: flag_set(flags.bits, OPEN_READ),
            write: flag_set(flags.bits, OPEN_WRITE),
        })
    }
}

/// What a read of at most `cap` bytes through `h` did: no file changes, and
/// through a readable handle on a stored file it returns the next bytes of
/// the file at the handle's position, which moves past them.
pub open spec fn was_read<F: FileSystem>(a: F, b: F, h: FileHandle, cap: int, old_buf: Seq<u8>, new_buf: Seq<u8>, r: Result<usize, VfsError>) -> bool {
    &&& new_buf.len() == old_buf.len()
    &&& forall|q: Seq<u8>| #[trigger] b.content_model(q) == a.content_model(q)
    &&& forall|h2: FileHandle| h2 != h ==> #[trigger] b.handle_model(h2) == a.handle_model(h2)
    &&& r is Err ==> new_buf == old_buf
    &&& (a.handle_model(h) is Some && a.handle_model(h)->Some_0.read && a.content_model(a.handle_model(h)->Some_0.path) is Some) ==> {
        let m = a.handle_model(h)->Some_0;
        let d = read_part(a.content_model(m.path)->Some_0, m.offset as int, cap);
        &&& r == Ok::<usize, VfsError>(d.len() as usize)
        &&& new_buf == d + old_buf.subrange(d.len() as int, old_buf.len() as int)
        &&& b.handle_model(h) == Some(HandleModel { offset: (m.offset + d.len()) as usize, ..m })
    }
}

/// What a write of `data` through `h` did: a refused write changes no file;
/// a write through a handle on a stored file puts `data` at the handle's
/// position (the end when appending), leaves every other file as it was
/// and moves the handle past it.
pub open spec fn was_written<F: FileSystem>(a: F, b: F, h: FileHandle, data: Seq<u8>, r: Result<usize, VfsError>) -> bool {
    &&& r matches Ok(n) ==> n == data.len()
    &&& r is Err ==> forall|q: Seq<u8>| #[trigger] b.content_model(q) == a.content_model(q)
    &&& forall|h2: FileHandle| h2 != h ==> #[trigger] b.handle_model(h2) == a.handle_model(h2)
    &&& (r is Ok && a.handle_model(h) is Some && a.content_model(a.handle_model(h)->Some_0.path) is Some) ==> {
        let m = a.handle_model(h)->Some_0;
        let c = a.content_model(m.path)->Some_0;
        let pos = if m.append { c.len() as int } else { m.offset as int };
        &&& b.content_model(m.path) == Some(crate::fs::memfs::write_into(c, pos, data))
        &&& b.handle_model(h) == Some(HandleModel { offset: (pos + data.len()) as usize, ..m })
        &&& forall|q: Seq<u8>| F::path_key(q) != m.path ==> #[trigger] b.content_model(q) == a.content_model(q)
    }
}

/// `entries` hold the first `count` entries of listing `l` in order.
pub open spec fn listed(entries: Seq<DirEntry>, l: Seq<(Seq<u8>, FileType)>, count: int) -> bool {
    crate::fs::memfs::lists_prefix(entries, l, count)
}

/// A file system the VFS can mount. Paths are relative to its root, as
/// bytes without a leading slash.
pub trait FileSystem: Sized {
    /// What the file system keeps true of itself between calls.
    spec fn inv(&self) -> bool;

    /// What `stat` answers for the root-relative `path` in this state.
    spec fn stat_model(&self, path: Seq<u8>) -> Result<FileStat, VfsError>;

    /// The key under which the file at `path` is kept.
    spec fn path_key(path: Seq<u8>) -> Seq<u8>;

    /// The stored bytes of the file with key `key`, when there is one.
    spec fn content_model(&self, key: Seq<u8>) -> Option<Seq<u8>>;

    /// The handle the next successful `open` hands out.
    spec fn next_handle_model(&self) -> FileHandle;

    /// What the file system keeps of open handle `h`.
    spec fn handle_model(&self, h: FileHandle) -> Option<HandleModel>;

    /// The names and types `path` lists, when it is a directory.
    spec fn listing_model(&self, path: Seq<u8>) -> Option<Seq<(Seq<u8>, FileType)>>;

    fn open(&mut self, path: &[u8], flags: OpenFlags) -> (r: Result<FileHandle, VfsError>)
        requires
            old(self).inv(),
        ensures
            final(self).inv(),
            ({
                let k = Self::path_key(path@);
                let trunc = flag_set(flags.bits, OPEN_TRUNC);
                let app = flag_set(flags.bits, OPEN_APPEND);
                &&& r matches Ok(h) ==> h == old(self).next_handle_model()
                &&& old(self).content_model(k) is Some && flags_valid(flags.bits) && !trunc ==> r is Ok
                &&& !trunc ==> forall|q: Seq<u8>| old(self).content_model(q) is Some ==> #[trigger] final(self).content_model(q) == old(self).content_model(q)
                &&& r is Err ==> forall|q: Seq<u8>| old(self).content_model(q) is Some ==> #[trigger] final(self).content_model(q) == old(self).content_model(q)
                &&& forall|h2: FileHandle| old(self).handle_model(h2) is Some ==> #[trigger] final(self).handle_model(h2) == old(self).handle_model(h2)
                &&& (r matches Ok(h) && old(self).handle_model(h) is None
                    && (old(self).content_model(k) is Some || old(self).stat_model(path@) == Err::<FileStat, VfsError>(VfsError::NotFound))) ==> {
                    let start = if trunc || old(self).content_model(k) is None { Seq::<u8>::empty() } else { old(self).content_model(k)->0 };
                    &&& final(self).content_model(k) == Some(start)
                    &&& final(self).handle_model(r->Ok_0) == Some(HandleModel {
                        path: k,
                        offset: if app { start.len() as usize } else { 0usize },
                        append: app,
                        read: flag_set(flags.bits, OPEN_READ),
                        write: flag_set(flags.bits, OPEN_WRITE),
                    })
                }
            }),
            forall|p: Seq<u8>| old(self).stat_model(p) is Ok && !flag_set(flags.bits, OPEN_TRUNC)
                ==> #[trigger] final(self).stat_model(p) == old(self).stat_model(p);
    fn read(&mut self, handle: FileHandle, buf: &mut [u8]) -> (r: Result<usize, VfsError>)
        requires
            old(self).inv(),
        ensures
            final(self).inv(),
            ({
                &&& final(buf)@.len() == old(buf)@.len()
                &&& forall|q: Seq<u8>| #[trigger] final(self).content_model(q) == old(self).content_model(q)
                &&& forall|h2: FileHandle| h2 != handle ==> #[trigger] final(self).handle_model(h2) == old(self).handle_model(h2)
                &&& r is Err ==> final(buf)@ == old(buf)@
                &&& (old(self).handle_model(handle) is Some && old(self).handle_model(handle)->Some_0.read && old(self).content_model(old(self).handle_model(handle)->Some_0.path) is Some) ==> {
                    let m = old(self).handle_model(handle)->Some_0;
                    let d = read_part(old(self).content_model(m.path)->Some_0, m.offset as int, old(buf)@.len() as int);
                    &&& r == Ok::<usize, VfsError>(d.len() as usize)
                    &&& final(buf)@ == d + old(buf)@.subrange(d.len() as int, old(buf)@.len() as int)
                    &&& final(self).handle_model(handle) == Some(HandleModel { offset: (m.offset + d.len()) as usize, ..m })
                }
            }),
            forall|p: Seq<u8>| #[trigger] final(self).stat_model(p) == old(self).stat_model(p);
    fn write(&mut self, handle: FileHandle, buf: &[u8]) -> (r: Result<usize, VfsError>)
        requires
            old(self).inv(),
        ensures
            final(self).inv(),
            ({
                &&& r matches Ok(n) ==> n == buf@.len()
                &&& r is Err ==> forall|q: Seq<u8>| #[trigger] final(self).content_model(q) == old(self).content_model(q)
                &&& forall|h2: FileHandle| h2 != handle ==> #[trigger] final(self).handle_model(h2) == old(self).handle_model(h2)
                &&& (r is Ok && old(self).handle_model(handle) is Some && old(self).content_model(old(self).handle_model(handle)->Some_0.path) is Some) ==> {
                    let m = old(self).handle_model(handle)->Some_0;
                    let c = old(self).content_model(m.path)->Some_0;
                    let pos = if m.append { c.len() as int } else { m.offset as int };
                    &&& final(self).content_model(m.path) == Some(crate::fs::memfs::write_into(c, pos, buf@))
                    &&& final(self).handle_model(handle) == Some(HandleModel { offset: (pos + buf@.len()) as usize, ..m })
                    &&& forall|q: Seq<u8>| Self::path_key(q) != m.path ==> #[trigger] final(self).content_model(q) == old(self).content_model(q)
                }
            });
    fn close(&mut self, handle: FileHandle) -> (r: Result<(), VfsError>)
        requires
            old(self).inv(),
        ensures
            final(self).inv(),
            forall|q: Seq<u8>| #[trigger] final(self).content_model(q) == old(self).content_model(q),
            forall|p: Seq<u8>| #[trigger] final(self).stat_model(p) == old(self).stat_model(p);
    fn readdir(&mut self, path: &[u8]) -> (r: Result<Vec<DirEntry>, VfsError>)
        requires
            old(self).inv(),
        ensures
            final(self).inv(),
            forall|p: Seq<u8>| #[trigger] final(self).stat_model(p) == old(self).stat_model(p),
            forall|q: Seq<u8>| #[trigger] final(self).content_model(q) == old(self).content_model(q),
            old(self).listing_model(path@) is None ==> r is Err,
            old(self).listing_model(path@) matches Some(l) ==> (r matches Ok(v) && v@.len() <= l.len() && listed(v@, l, v@.len() as int));
    fn readdir_into(&mut self, path: &[u8], entries: &mut [DirEntry]) -> (r: Result<usize, VfsError>)
        requires
            old(self).inv(),
        ensures
            final(self).inv(),
            final(entries)@.len() == old(entries)@.len(),
            forall|p: Seq<u8>| #[trigger] final(self).stat_model(p) == old(self).stat_model(p),
            forall|q: Seq<u8>| #[trigger] final(self).content_model(q) == old(self).content_model(q),
            old(self).listing_model(path@) is None ==> r is Err,
            old(self).listing_model(path@) matches Some(l) ==> {
                let count = if l.len() < old(entries)@.len() { l.len() as int } else { old(entries)@.len() as int };
                &&& r == Ok::<usize, VfsError>(count as usize)
                &&& listed(final(entries)@, l, count)
            };
    /// Creates an empty file at `path`.
    fn create(&mut self, path: &[u8]) -> (r: Result<(), VfsError>)
        requires
            old(self).inv(),
        ensures
            final(self).inv(),
            r is Ok ==> final(self).stat_model(path@) == Ok::<FileStat, VfsError>(FileStat { file_type: FileType::File, size: 0 }),
            r is Ok ==> final(self).content_model(Self::path_key(path@)) == Some(Seq::<u8>::empty()),
            forall|q: Seq<u8>| old(self).content_model(q) is Some ==> #[trigger] final(self).content_model(q) == old(self).content_model(q),
            forall|h: FileHandle| #[trigger] final(self).handle_model(h) == old(self).handle_model(h),
            final(self).next_handle_model() == old(self).next_handle_model(),
            r is Err ==> forall|p: Seq<u8>| #[trigger] final(self).stat_model(p) == old(self).stat_model(p);
    /// Creates a directory at `path`.
    fn mkdir(&mut self, path: &[u8]) -> (r: Result<(), VfsError>)
        requires
            old(self).inv(),
        ensures
            final(self).inv(),
            r is Ok ==> final(self).stat_model(path@) == Ok::<FileStat, VfsError>(FileStat { file_type: FileType::Directory, size: 0 }),
            r is Err ==> forall|p: Seq<u8>| #[trigger] final(self).stat_model(p) == old(self).stat_model(p);
    /// Removes the file at `path`.
    fn remove(&mut self, path: &[u8]) -> (r: Result<(), VfsError>)
        requires
            old(self).inv(),
        ensures
            final(self).inv(),
            r is Ok ==> old(self).stat_model(path@) is Ok,
            r is Ok ==> final(self).stat_model(path@) == Err::<FileStat, VfsError>(VfsError::NotFound),
            r is Err ==> forall|p: Seq<u8>| #[trigger] final(self).stat_model(p) == old(self).stat_model(p);
    /// Empties the file at `path`.
    fn truncate(&mut self, path: &[u8]) -> (r: Result<(), VfsError>)
        requires
            old(self).inv(),
        ensures
            final(self).inv(),
            r is Ok ==> old(self).stat_model(path@) is Ok,
            r is Ok && old(self).content_model(Self::path_key(path@)) is Some ==> final(self).content_model(Self::path_key(path@)) == Some(Seq::<u8>::empty()),
            forall|q: Seq<u8>| Self::path_key(q) != Self::path_key(path@) ==> #[trigger] final(self).content_model(q) == old(self).content_model(q),
            forall|h: FileHandle| #[trigger] final(self).handle_model(h) == old(self).handle_model(h),
            final(self).next_handle_model() == old(self).next_handle_model(),
            r is Err ==> forall|p: Seq<u8>| #[trigger] final(self).stat_model(p) == old(self).stat_model(p);
    fn stat(&mut self, path: &[u8]) -> (r: Result<FileStat, VfsError>)
        requires
            old(self).inv(),
        ensures
            final(self).inv(),
            r == old(self).stat_model(path@),
            forall|h: FileHandle| #[trigger] final(self).handle_model(h) == old(self).handle_model(h),
            final(self).next_handle_model() == old(self).next_handle_model(),
            forall|p: Seq<u8>| #[trigger] final(self).stat_model(p) == old(self).stat_model(p),
            forall|q: Seq<u8>| #[trigger] final(self).content_model(q) == old(self).content_model(q);
}

/// The path handed to the root file system for `path` against `cwd`: the
/// normalized path without its leading slash.
pub open spec fn relative_path(path: Seq<u8>, cwd: Seq<u8>) -> Seq<u8> {
    let p = normalized_path(path, cwd)->0;
    p.subrange(1, p.len() as int)
}

/// Open descriptors of the root file system, with the next descriptor
/// number to hand out.
pub struct VirtualFileSystem<F: FileSystem> {
    pub root_fs: Option<F>,
    pub open_files: Vec<(FileDescriptor, FileHandle)>,
    pub next_fd: FileDescriptor,
}

impl<F: FileSystem> VirtualFileSystem<F> {
    /// Descriptors to root file-system handles.
    pub open spec fn files(&self) -> Map<FileDescriptor, FileHandle> {
        to_map(self.open_files@)
    }

    /// What `stat` of `path` against `cwd` answers in this state.
    pub open spec fn stat_model_at(&self, path: Seq<u8>, cwd: Seq<u8>) -> Result<FileStat, VfsError> {
        match normalized_path(path, cwd) {
            None => Err(VfsError::InvalidPath),
            Some(_) => match self.root_fs {
                None => Err(VfsError::NotFound),
                Some(fs) => fs.stat_model(relative_path(path, cwd)),
            },
        }
    }

    /// Every `stat` answer is the same in `self` and `other`.
    pub open spec fn same_stats(&self, other: &Self) -> bool {
        forall|p: Seq<u8>, c: Seq<u8>| #[trigger] self.stat_model_at(p, c) == other.stat_model_at(p, c)
    }

    pub open spec fn wf(&self) -> bool {
        &&& (self.root_fs matches Some(fs) ==> fs.inv())
        &&& keys_unique(self.open_files@)
        &&& forall|i: int| 0 <= i < self.open_files@.len() ==> (#[trigger] self.open_files@[i]).0 < self.next_fd
    }

    pub fn new() -> (r: Self)
        ensures
            r.wf(),
            r.root_fs is None,
            r.files() == Map::<FileDescriptor, FileHandle>::empty(),
            r.next_fd == 3,
    {
        let r = VirtualFileSystem { root_fs: None, open_files: Vec::new(), next_fd: 3 };
        assert(r.files() =~= Map::<FileDescriptor, FileHandle>::empty());
        r
    }

    /// Mounts `fs` as the root; only `/` can be a mount point.
    pub fn mount(&mut self, path: &str, fs: F) -> (r: Result<(), VfsError>)
        ensures
            path.spec_bytes() == seq![47u8] ==> r is Ok && final(self).root_fs == Some(fs),
            old(self).wf() && fs.inv() ==> final(self).wf(),
            path.spec_bytes() != seq![47u8] ==> r == Err::<(), VfsError>(VfsError::Unsupported)
                && final(self).root_fs == old(self).root_fs,
            final(self).open_files == old(self).open_files,
            final(self).next_fd == old(self).next_fd,
    {
        let b = path.as_bytes();
        if b.len() == 1 && b[0] == 47u8 {
            proof {
                assert(path.spec_bytes() =~= seq![47u8]);
            }
            self.root_fs = Some(fs);
            Ok(())
        } else {
            Err(VfsError::Unsupported)
        }
    }

    /// The root-relative form of `path` against `cwd`: `InvalidPath` when it
    /// does not normalize, `NotFound` with nothing mounted.
    fn resolve_path(&self, path: &str, cwd: &str) -> (r: Result<Vec<u8>, VfsError>)
        ensures
            normalized_path(path.spec_bytes(), cwd.spec_bytes()) is None ==> r == Err::<Vec<u8>, VfsError>(VfsError::InvalidPath),
            normalized_path(path.spec_bytes(), cwd.spec_bytes()) is Some && self.root_fs is None ==>
                r == Err::<Vec<u8>, VfsError>(VfsError::NotFound),
            normalized_path(path.spec_bytes(), cwd.spec_bytes()) is Some && self.root_fs is Some ==>
                (r matches Ok(v) && v@ == relative_path(path.spec_bytes(), cwd.spec_bytes())),
    {
        let norm = match normalize_path(path, cwd) {
            Ok(v) => v,
            Err(e) => return Err(e),
        };
        if self.root_fs.is_none() {
            return Err(VfsError::NotFound);
        }
        proof {
            let st = normalized(path.spec_bytes(), cwd.spec_bytes())->0;
            lemma_render_len(st);
        }
        let mut out: Vec<u8> = Vec::new();
        let mut i: usize = 1;
        while i < norm.len()
            invariant
                1 <= i <= norm@.len(),
                out@ == norm@.subrange(1, i as int),
            decreases norm@.len() - i,
        {
            out.push(norm[i]);
            proof {
                assert(out@ =~= norm@.subrange(1, i as int + 1));
            }
            i = i + 1;
        }
        Ok(out)
    }

    fn find(&self, fd: FileDescriptor) -> (r: Option<usize>)
        requires
            self.wf(),
        ensures
            r matches Some(i) ==> i < self.open_files@.len() && self.open_files@[i as int].0 == fd
                && self.files().contains_key(fd) && self.files()[fd] == self.open_files@[i as int].1,
            r is None <==> !self.files().contains_key(fd),
    {
        let mut i: usize = 0;
        while i < self.open_files.len()
            invariant
                i <= self.open_files@.len(),
                keys_unique(self.open_files@),
                forall|j: int| 0 <= j < i ==> self.open_files@[j].0 != fd,
            decreases self.open_files@.len() - i,
        {
            if self.open_files[i].0 == fd {
                proof {
                    lemma_lookup_at(self.open_files@, i as int);
                }
                return Some(i);
            }
            i = i + 1;
        }
        proof {
            lemma_lookup_none(self.open_files@, fd);
        }
        None
    }

    /// Opens `path` (relative to `cwd`) on the root file system under a new
    /// descriptor.
    pub fn open_at(&mut self, cwd: &str, path: &str, flags: OpenFlags) -> (r: Result<FileDescriptor, VfsError>)
        requires
            old(self).wf(),
            old(self).next_fd < u32::MAX,
        ensures
            final(self).wf(),
            normalized_path(path.spec_bytes(), cwd.spec_bytes()) is None ==> r == Err::<FileDescriptor, VfsError>(VfsError::InvalidPath),
            normalized_path(path.spec_bytes(), cwd.spec_bytes()) is Some && old(self).root_fs is None ==>
                r == Err::<FileDescriptor, VfsError>(VfsError::NotFound),
            r is Err ==> final(self).files() == old(self).files() && final(self).next_fd == old(self).next_fd,
            r matches Ok(fd) ==> fd == old(self).next_fd && !old(self).files().contains_key(fd)
                && final(self).next_fd == old(self).next_fd + 1
                && final(self).files().dom() == old(self).files().dom().insert(fd)
                && forall|k: FileDescriptor| k != fd && #[trigger] old(self).files().contains_key(k) ==> final(self).files()[k] == old(self).files()[k],
            normalized_path(path.spec_bytes(), cwd.spec_bytes()) is None || old(self).root_fs is None ==> final(self).root_fs == old(self).root_fs,
            normalized_path(path.spec_bytes(), cwd.spec_bytes()) is Some && old(self).root_fs is Some ==> final(self).root_fs is Some
                && opened(old(self).root_fs->0, final(self).root_fs->0, relative_path(path.spec_bytes(), cwd.spec_bytes()), flags,
                    match r { Ok(fd) => Ok::<FileHandle, VfsError>(final(self).files()[fd]), Err(e) => Err::<FileHandle, VfsError>(e) }),
    {
        let relative = match self.resolve_path(path, cwd) {
            Ok(v) => v,
            Err(e) => return Err(e),
        };
        let handle = match &mut self.root_fs {
            Some(fs) => match fs.open(relative.as_slice(), flags) {
                Ok(h) => h,
                Err(e) => return Err(e),
            },
            None => return Err(VfsError::NotFound),
        };
        let fd = self.next_fd;
        proof {
            assert(!crate::assoc::has_key(self.open_files@, fd)) by {
                if crate::assoc::has_key(self.open_files@, fd) {
                    let i = choose|i: int| 0 <= i < self.open_files@.len() && self.open_files@[i].0 == fd;
                    assert(self.open_files@[i].0 < self.next_fd);
                }
            }
            lemma_push(self.open_files@, fd, handle);
        }
        self.open_files.push((fd, handle));
        self.next_fd = self.next_fd + 1;
        proof {
            lemma_push(old(self).open_files@, fd, handle);
            assert forall|i: int| 0 <= i < self.open_files@.len() implies (#[trigger] self.open_files@[i]).0 < self.next_fd by {
                if i < old(self).open_files@.len() {
                    assert(self.open_files@[i] == old(self).open_files@[i]);
                }
            }
            assert(self.files().dom() =~= old(self).files().dom().insert(fd));
        }
        Ok(fd)
    }

    /// Opens an absolute `path`.
    pub fn open(&mut self, path: &str, flags: OpenFlags) -> (r: Result<FileDescriptor, VfsError>)
        requires
            old(self).wf(),
            old(self).next_fd < u32::MAX,
        ensures
            final(self).wf(),
            r is Err ==> final(self).files() == old(self).files(),
            r matches Ok(fd) ==> fd == old(self).next_fd && final(self).files().dom() == old(self).files().dom().insert(fd),
    {
        self.open_at("/", path, flags)
    }

    /// Reads through descriptor `fd`.
    pub fn read(&mut self, fd: FileDescriptor, buf: &mut [u8]) -> (r: Result<usize, VfsError>)
        requires
            old(self).wf(),
        ensures
            final(self).wf(),
            final(self).open_files == old(self).open_files,
            final(self).next_fd == old(self).next_fd,
            final(buf)@.len() == old(buf)@.len(),
            !old(self).files().contains_key(fd) ==> r == Err::<usize, VfsError>(VfsError::InvalidDescriptor),
            !old(self).files().contains_key(fd) || old(self).root_fs is None ==> final(self).root_fs == old(self).root_fs && r is Err,
            old(self).files().contains_key(fd) && old(self).root_fs is Some ==> final(self).root_fs is Some
                && was_read(old(self).root_fs->0, final(self).root_fs->0, old(self).files()[fd], old(buf)@.len() as int, old(buf)@, final(buf)@, r),
    {
        let i = match self.find(fd) {
            Some(i) => i,
            None => return Err(VfsError::InvalidDescriptor),
        };
        proof {
            lemma_lookup_at(self.open_files@, i as int);
        }
        let handle = self.open_files[i].1;
        match &mut self.root_fs {
            Some(fs) => fs.read(handle, buf),
            None => Err(VfsError::InvalidDescriptor),
        }
    }

    /// Writes through descriptor `fd`.
    pub fn write(&mut self, fd: FileDescriptor, buf: &[u8]) -> (r: Result<usize, VfsError>)
        requires
            old(self).wf(),
        ensures
            final(self).wf(),
            final(self).open_files == old(self).open_files,
            final(self).next_fd == old(self).next_fd,
            !old(self).files().contains_key(fd) ==> r == Err::<usize, VfsError>(VfsError::InvalidDescriptor),
            !old(self).files().contains_key(fd) || old(self).root_fs is None ==> final(self).root_fs == old(self).root_fs && r is Err,
            old(self).files().contains_key(fd) && old(self).root_fs is Some ==> final(self).root_fs is Some
                && was_written(old(self).root_fs->0, final(self).root_fs->0, old(self).files()[fd], buf@, r),
    {
        let i = match self.find(fd) {
            Some(i) => i,
            None => return Err(VfsError::InvalidDescriptor),
        };
        proof {
            lemma_lookup_at(self.open_files@, i as int);
        }
        let handle = self.open_files[i].1;
        match &mut self.root_fs {
            Some(fs) => fs.write(handle, buf),
            None => Err(VfsError::InvalidDescriptor),
        }
    }

    /// Closes descriptor `fd`, closing its handle on the file system.
    pub fn close(&mut self, fd: FileDescriptor) -> (r: Result<(), VfsError>)
        requires
            old(self).wf(),
        ensures
            final(self).wf(),
            final(self).next_fd == old(self).next_fd,
            old(self).files().contains_key(fd) ==> r is Ok && final(self).files() == old(self).files().remove(fd),
            !old(self).files().contains_key(fd) ==> r == Err::<(), VfsError>(VfsError::InvalidDescriptor)
                && final(self).files() == old(self).files(),
            final(self).root_fs is Some == old(self).root_fs is Some,
            old(self).root_fs is Some ==> forall|q: Seq<u8>| #[trigger] final(self).root_fs->0.content_model(q) == old(self).root_fs->0.content_model(q),
            final(self).same_stats(&*old(self)),
    {
        let i = match self.find(fd) {
            Some(i) => i,
            None => return Err(VfsError::InvalidDescriptor),
        };
        proof {
            lemma_remove(self.open_files@, i as int);
        }
        let (_, handle) = self.open_files.remove(i);
        proof {
            assert forall|j: int| 0 <= j < self.open_files@.len() implies (#[trigger] self.open_files@[j]).0 < self.next_fd by {
                let k = if j < i { j } else { j + 1 };
                assert(self.open_files@[j] == old(self).open_files@[k]);
            }
            assert(self.files() =~= old(self).files().remove(fd));
        }
        match &mut self.root_fs {
            Some(fs) => {
                let _ = fs.close(handle);
            },
            None => {},
        }
        Ok(())
    }

    pub fn open_file_count(&self) -> (r: usize)
        ensures
            r == self.open_files@.len(),
    {
        self.open_files.len()
    }

    pub fn readdir_at(&mut self, cwd: &str, path: &str) -> (r: Result<Vec<DirEntry>, VfsError>)
        requires
            old(self).wf(),
        ensures
            final(self).wf(),
            final(self).open_files == old(self).open_files,
            final(self).next_fd == old(self).next_fd,
            normalized_path(path.spec_bytes(), cwd.spec_bytes()) is None ==> r == Err::<Vec<DirEntry>, VfsError>(VfsError::InvalidPath),
            normalized_path(path.spec_bytes(), cwd.spec_bytes()) is Some && old(self).root_fs is None ==>
                r == Err::<Vec<DirEntry>, VfsError>(VfsError::NotFound),
            final(self).same_stats(&*old(self)),
            normalized_path(path.spec_bytes(), cwd.spec_bytes()) is Some && old(self).root_fs is Some ==> ({
                let l = old(self).root_fs->0.listing_model(relative_path(path.spec_bytes(), cwd.spec_bytes()));
                &&& l is None ==> r is Err
                &&& l matches Some(l) ==> (r matches Ok(v) && v@.len() <= l.len() && listed(v@, l, v@.len() as int))
            }),
    {
        let relative = match self.resolve_path(path, cwd) {
            Ok(v) => v,
            Err(e) => return Err(e),
        };
        match &mut self.root_fs {
            Some(fs) => fs.readdir(relative.as_slice()),
            None => Err(VfsError::NotFound),
        }
    }

    pub fn readdir_into_at(&mut self, cwd: &str, path: &str, entries: &mut [DirEntry]) -> (r: Result<usize, VfsError>)
        requires
            old(self).wf(),
        ensures
            final(self).wf(),
            final(self).open_files == old(self).open_files,
            final(self).next_fd == old(self).next_fd,
            final(entries)@.len() == old(entries)@.len(),
            normalized_path(path.spec_bytes(), cwd.spec_bytes()) is None ==> r == Err::<usize, VfsError>(VfsError::InvalidPath),
            normalized_path(path.spec_bytes(), cwd.spec_bytes()) is Some && old(self).root_fs is None ==>
                r == Err::<usize, VfsError>(VfsError::NotFound),
            final(self).same_stats(&*old(self)),
            normalized_path(path.spec_bytes(), cwd.spec_bytes()) is Some && old(self).root_fs is Some ==> ({
                let l = old(self).root_fs->0.listing_model(relative_path(path.spec_bytes(), cwd.spec_bytes()));
                &&& l is None ==> r is Err
                &&& l matches Some(l) ==> {
                    let count = if l.len() < old(entries)@.len() { l.len() as int } else { old(entries)@.len() as int };
                    &&& r == Ok::<usize, VfsError>(count as usize)
                    &&& listed(final(entries)@, l, count)
                }
            }),
    {
        let relative = match self.resolve_path(path, cwd) {
            Ok(v) => v,
            Err(e) => return Err(e),
        };
        match &mut self.root_fs {
            Some(fs) => fs.readdir_into(relative.as_slice(), entries),
            None => Err(VfsError::NotFound),
        }
    }

    pub fn create_at(&mut self, cwd: &str, path: &str) -> (r: Result<(), VfsError>)
        requires
            old(self).wf(),
        ensures
            final(self).wf(),
            final(self).open_files == old(self).open_files,
            final(self).next_fd == old(self).next_fd,
            normalized_path(path.spec_bytes(), cwd.spec_bytes()) is None ==> r == Err::<(), VfsError>(VfsError::InvalidPath),
            normalized_path(path.spec_bytes(), cwd.spec_bytes()) is Some && old(self).root_fs is None ==>
                r == Err::<(), VfsError>(VfsError::NotFound),
            r is Ok ==> final(self).stat_model_at(path.spec_bytes(), cwd.spec_bytes())
                == Ok::<FileStat, VfsError>(FileStat { file_type: FileType::File, size: 0 }),
            r is Err ==> final(self).same_stats(&*old(self)),
            normalized_path(path.spec_bytes(), cwd.spec_bytes()) is None || old(self).root_fs is None ==> final(self).root_fs == old(self).root_fs,
            normalized_path(path.spec_bytes(), cwd.spec_bytes()) is Some && old(self).root_fs is Some ==> ({
                let a = old(self).root_fs->0;
                let b = final(self).root_fs->0;
                &&& final(self).root_fs is Some
                &&& r is Ok ==> b.content_model(F::path_key(relative_path(path.spec_bytes(), cwd.spec_bytes()))) == Some(Seq::<u8>::empty())
                &&& forall|q: Seq<u8>| a.content_model(q) is Some ==> #[trigger] b.content_model(q) == a.content_model(q)
                &&& forall|h: FileHandle| #[trigger] b.handle_model(h) == a.handle_model(h)
                &&& b.next_handle_model() == a.next_handle_model()
            }),
    {
        let relative = match self.resolve_path(path, cwd) {
            Ok(v) => v,
            Err(e) => return Err(e),
        };
        match &mut self.root_fs {
            Some(fs) => fs.create(relative.as_slice()),
            None => Err(VfsError::NotFound),
        }
    }

    pub fn mkdir_at(&mut self, cwd: &str, path: &str) -> (r: Result<(), VfsError>)
        requires
            old(self).wf(),
        ensures
            final(self).wf(),
            final(self).open_files == old(self).open_files,
            final(self).next_fd == old(self).next_fd,
            normalized_path(path.spec_bytes(), cwd.spec_bytes()) is None ==> r == Err::<(), VfsError>(VfsError::InvalidPath),
            normalized_path(path.spec_bytes(), cwd.spec_bytes()) is Some && old(self).root_fs is None ==>
                r == Err::<(), VfsError>(VfsError::NotFound),
            r is Ok ==> final(self).stat_model_at(path.spec_bytes(), cwd.spec_bytes())
                == Ok::<FileStat, VfsError>(FileStat { file_type: FileType::Directory, size: 0 }),
            r is Err ==> final(self).same_stats(&*old(self)),
    {
        let relative = match self.resolve_path(path, cwd) {
            Ok(v) => v,
            Err(e) => return Err(e),
        };
        match &mut self.root_fs {
            Some(fs) => fs.mkdir(relative.as_slice()),
            None => Err(VfsError::NotFound),
        }
    }

    pub fn remove_at(&mut self, cwd: &str, path: &str) -> (r: Result<(), VfsError>)
        requires
            old(self).wf(),
        ensures
            final(self).wf(),
            final(self).open_files == old(self).open_files,
            final(self).next_fd == old(self).next_fd,
            normalized_path(path.spec_bytes(), cwd.spec_bytes()) is None ==> r == Err::<(), VfsError>(VfsError::InvalidPath),
            normalized_path(path.spec_bytes(), cwd.spec_bytes()) is Some && old(self).root_fs is None ==>
                r == Err::<(), VfsError>(VfsError::NotFound),
            r is Ok ==> old(self).stat_model_at(path.spec_bytes(), cwd.spec_bytes()) is Ok,
            r is Err ==> final(self).same_stats(&*old(self)),
            r is Ok ==> final(self).stat_model_at(path.spec_bytes(), cwd.spec_bytes()) == Err::<FileStat, VfsError>(VfsError::NotFound),
    {
        let relative = match self.resolve_path(path, cwd) {
            Ok(v) => v,
            Err(e) => return Err(e),
        };
        match &mut self.root_fs {
            Some(fs) => fs.remove(relative.as_slice()),
            None => Err(VfsError::NotFound),
        }
    }

    pub fn truncate_at(&mut self, cwd: &str, path: &str) -> (r: Result<(), VfsError>)
        requires
            old(self).wf(),
        ensures
            final(self).wf(),
            final(self).open_files == old(self).open_files,
            final(self).next_fd == old(self).next_fd,
            normalized_path(path.spec_bytes(), cwd.spec_bytes()) is None ==> r == Err::<(), VfsError>(VfsError::InvalidPath),
            normalized_path(path.spec_bytes(), cwd.spec_bytes()) is Some && old(self).root_fs is None ==>
                r == Err::<(), VfsError>(VfsError::NotFound),
            r is Ok ==> old(self).stat_model_at(path.spec_bytes(), cwd.spec_bytes()) is Ok,
            r is Err ==> final(self).same_stats(&*old(self)),
            normalized_path(path.spec_bytes(), cwd.spec_bytes()) is None || old(self).root_fs is None ==> final(self).root_fs == old(self).root_fs,
            normalized_path(path.spec_bytes(), cwd.spec_bytes()) is Some && old(self).root_fs is Some ==> ({
                let a = old(self).root_fs->0;
                let b = final(self).root_fs->0;
                let k = F::path_key(relative_path(path.spec_bytes(), cwd.spec_bytes()));
                &&& final(self).root_fs is Some
                &&& r is Ok && a.content_model(k) is Some ==> b.content_model(k) == Some(Seq::<u8>::empty())
                &&& forall|q: Seq<u8>| F::path_key(q) != k ==> #[trigger] b.content_model(q) == a.content_model(q)
                &&& forall|h: FileHandle| #[trigger] b.handle_model(h) == a.handle_model(h)
                &&& b.next_handle_model() == a.next_handle_model()
            }),
    {
        let relative = match self.resolve_path(path, cwd) {
            Ok(v) => v,
            Err(e) => return Err(e),
        };
        match &mut self.root_fs {
            Some(fs) => fs.truncate(relative.as_slice()),
            None => Err(VfsError::NotFound),
        }
    }

    pub fn stat_at(&mut self, cwd: &str, path: &str) -> (r: Result<FileStat, VfsError>)
        requires
            old(self).wf(),
        ensures
            final(self).wf(),
            final(self).open_files == old(self).open_files,
            final(self).next_fd == old(self).next_fd,
            old(self).root_fs is None ==> final(self).root_fs is None,
            normalized_path(path.spec_bytes(), cwd.spec_bytes()) is None ==> r == Err::<FileStat, VfsError>(VfsError::InvalidPath),
            normalized_path(path.spec_bytes(), cwd.spec_bytes()) is Some && old(self).root_fs is None ==>
                r == Err::<FileStat, VfsError>(VfsError::NotFound),
            r == old(self).stat_model_at(path.spec_bytes(), cwd.spec_bytes()),
            final(self).same_stats(&*old(self)),
            normalized_path(path.spec_bytes(), cwd.spec_bytes()) is None || old(self).root_fs is None ==> final(self).root_fs == old(self).root_fs,
            normalized_path(path.spec_bytes(), cwd.spec_bytes()) is Some && old(self).root_fs is Some ==> ({
                let a = old(self).root_fs->0;
                let b = final(self).root_fs->0;
                &&& final(self).root_fs is Some
                &&& forall|q: Seq<u8>| #[trigger] b.content_model(q) == a.content_model(q)
                &&& forall|h: FileHandle| #[trigger] b.handle_model(h) == a.handle_model(h)
                &&& b.next_handle_model() == a.next_handle_model()
            }),
    {
        let relative = match self.resolve_path(path, cwd) {
            Ok(v) => v,
            Err(e) => return Err(e),
        };
        match &mut self.root_fs {
            Some(fs) => fs.stat(relative.as_slice()),
            None => Err(VfsError::NotFound),
        }
    }

    /// `path` normalized against `cwd`.
    pub fn normalize_at(&self, cwd: &str, path: &str) -> (r: Result<Vec<u8>, VfsError>)
        ensures
            normalized_path(path.spec_bytes(), cwd.spec_bytes()) is None ==> r == Err::<Vec<u8>, VfsError>(VfsError::InvalidPath),
            normalized_path(path.spec_bytes(), cwd.spec_bytes()) matches Some(p) ==> (r matches Ok(v) && v@ == p),
    {
        normalize_path(path, cwd)
    }
}

} // verus!
