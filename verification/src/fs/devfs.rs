//! The device file system: a flat directory of named devices kept in
//! byte-wise lexicographic order.
use vstd::prelude::*;
use vstd::string::StringSliceAdditionalSpecFns;
use crate::fs::vfs::{HandleModel, 
    DirEntry, FileHandle, FileStat, FileSystem, FileType, OpenFlags, VfsError, cut_name, dir_entry_name,
};
use crate::fs::memfs::bytes_eq;

verus! {

/// Byte-wise lexicographic "less than": a proper prefix comes first.
pub open spec fn lex_lt(a: Seq<u8>, b: Seq<u8>) -> bool
    decreases a.len(),
{
    if a.len() == 0 {
        b.len() > 0
    } else if b.len() == 0 {
        false
    } else if a[0] != b[0] {
        a[0] < b[0]
    } else {
        lex_lt(a.drop_first(), b.drop_first())
    }
}

/// Each name comes strictly before the next.
pub open spec fn sorted_strict(s: Seq<Seq<u8>>) -> bool {
    forall|i: int, j: int| 0 <= i < j < s.len() ==> lex_lt(#[trigger] s[i], #[trigger] s[j])
}

pub proof fn lemma_lex_irreflexive(a: Seq<u8>)
    ensures
        !lex_lt(a, a),
    decreases a.len(),
{
    if a.len() > 0 {
        lemma_lex_irreflexive(a.drop_first());
    }
}

pub proof fn lemma_lex_transitive(a: Seq<u8>, b: Seq<u8>, c: Seq<u8>)
    requires
        lex_lt(a, b),
        lex_lt(b, c),
    ensures
        lex_lt(a, c),
    decreases a.len(),
{
    if a.len() > 0 && b.len() > 0 && c.len() > 0 && a[0] == b[0] && b[0] == c[0] {
        lemma_lex_transitive(a.drop_first(), b.drop_first(), c.drop_first());
    }
}

pub proof fn lemma_lex_total(a: Seq<u8>, b: Seq<u8>)
    requires
        a != b,
    ensures
        lex_lt(a, b) || lex_lt(b, a),
    decreases a.len(),
{
    if a.len() > 0 && b.len() > 0 && a[0] == b[0] {
        if a.drop_first() == b.drop_first() {
            assert(a =~= seq![a[0]] + a.drop_first());
            assert(b =~= seq![b[0]] + b.drop_first());
        }
        lemma_lex_total(a.drop_first(), b.drop_first());
    } else if a.len() == 0 && b.len() == 0 {
        assert(a =~= b);
    }
}

pub proof fn lemma_lex_asymmetric(a: Seq<u8>, b: Seq<u8>)
    requires
        lex_lt(a, b),
    ensures
        !lex_lt(b, a),
{
    if lex_lt(b, a) {
        lemma_lex_transitive(a, b, a);
        lemma_lex_irreflexive(a);
    }
}

/// Whether `a` comes strictly before `b` byte-wise.
pub fn bytes_lt(a: &[u8], b: &[u8]) -> (r: bool)
    ensures
        r == lex_lt(a@, b@),
{
    let mut i: usize = 0;
    proof {
        assert(a@.skip(0) =~= a@);
        assert(b@.skip(0) =~= b@);
    }
    while i < a.len() && i < b.len()
        invariant
            i <= a@.len(),
            i <= b@.len(),
            lex_lt(a@, b@) == lex_lt(a@.skip(i as int), b@.skip(i as int)),
        decreases a@.len() - i,
    {
        if a[i] != b[i] {
            return a[i] < b[i];
        }
        proof {
            assert(a@.skip(i as int).drop_first() =~= a@.skip(i as int + 1));
            assert(b@.skip(i as int).drop_first() =~= b@.skip(i as int + 1));
        }
        i = i + 1;
    }
    i < b.len()
}

/// A device: its name and the bytes it was made with.
pub struct DeviceFile {
    pub name: Vec<u8>,
    pub data: Vec<u8>,
}

impl DeviceFile {
    pub fn new(name: &str) -> (r: Self)
        ensures
            r.name@ == name.spec_bytes(),
            r.data@.len() == 0,
    {
        DeviceFile { name: vstd::slice::slice_to_vec(name.as_bytes()), data: Vec::new() }
    }

    pub fn with_data(name: &str, data: Vec<u8>) -> (r: Self)
        ensures
            r.name@ == name.spec_bytes(),
            r.data@ == data@,
    {
        DeviceFile { name: vstd::slice::slice_to_vec(name.as_bytes()), data }
    }
}

/// The devices by name, in byte-wise order, and the next handle to hand out.
pub struct DevFs {
    pub devices: Vec<(Vec<u8>, DeviceFile)>,
    pub next_handle: FileHandle,
    pub open_handles: Vec<(FileHandle, Vec<u8>)>,
}

impl DevFs {
    /// The device names in the order the directory lists them.
    pub open spec fn names(&self) -> Seq<Seq<u8>> {
        self.devices@.map_values(|e: (Vec<u8>, DeviceFile)| e.0@)
    }

    /// The bytes of the device stored under `name`, if there is one.
    pub open spec fn device_data(&self, name: Seq<u8>) -> Option<Seq<u8>> {
        if exists|i: int| 0 <= i < self.devices@.len() && #[trigger] self.devices@[i].0@ == name {
            let i = choose|i: int| 0 <= i < self.devices@.len() && #[trigger] self.devices@[i].0@ == name;
            Some(self.devices@[i].1.data@)
        } else {
            None
        }
    }

    pub open spec fn wf(&self) -> bool {
        sorted_strict(self.names())
    }

    /// Whether a device is named `name`.
    pub open spec fn has(&self, name: Seq<u8>) -> bool {
        self.names().contains(name)
    }

    /// The frame buffer, keyboard and mouse devices, with handles from 1.
    pub fn new() -> (r: Self)
        ensures
            r.wf(),
            r.names() == seq![seq![102u8, 98u8, 48u8], seq![107u8, 98u8, 100u8], seq![109u8, 111u8, 117u8, 115u8, 101u8]],
            forall|i: int| 0 <= i < r.devices@.len() ==> (#[trigger] r.devices@[i]).1.data@.len() == 0,
            r.next_handle == 1,
            r.open_handles@.len() == 0,
    {
        let mut devices: Vec<(Vec<u8>, DeviceFile)> = Vec::new();
        let fb0: Vec<u8> = vec![102u8, 98u8, 48u8];
        let kbd: Vec<u8> = vec![107u8, 98u8, 100u8];
        let mouse: Vec<u8> = vec![109u8, 111u8, 117u8, 115u8, 101u8];
        devices.push((fb0.clone(), DeviceFile { name: fb0, data: Vec::new() }));
        devices.push((kbd.clone(), DeviceFile { name: kbd, data: Vec::new() }));
        devices.push((mouse.clone(), DeviceFile { name: mouse, data: Vec::new() }));
        let r = DevFs { devices, next_handle: 1, open_handles: Vec::new() };
        proof {
            assert(r.names() =~= seq![seq![102u8, 98u8, 48u8], seq![107u8, 98u8, 100u8], seq![109u8, 111u8, 117u8, 115u8, 101u8]]);
            let n = r.names();
            assert(lex_lt(n[0], n[1]));
            assert(lex_lt(n[1], n[2]));
            assert(lex_lt(n[0], n[2]));
        }
        r
    }

    /// In a well-formed table the device data under a listed name is the
    /// data at its (only) position.
    pub proof fn lemma_data_at(&self, i: int)
        requires
            self.wf(),
            0 <= i < self.devices@.len(),
        ensures
            self.device_data(self.devices@[i].0@) == Some(self.devices@[i].1.data@),
    {
        let n = self.devices@[i].0@;
        assert forall|k: int| 0 <= k < self.devices@.len() && #[trigger] self.devices@[k].0@ == n implies k == i by {
            if k != i {
                assert(self.names()[i] == n && self.names()[k] == n);
                lemma_lex_irreflexive(n);
                if i < k {
                    assert(lex_lt(self.names()[i], self.names()[k]));
                } else {
                    assert(lex_lt(self.names()[k], self.names()[i]));
                }
            }
        }
        assert(exists|k: int| 0 <= k < self.devices@.len() && #[trigger] self.devices@[k].0@ == n);
    }

    /// Adds `device` under `name`, or replaces the device of that name,
    /// keeping the names in order.
    pub fn add_device(&mut self, name: &str, device: DeviceFile)
        requires
            old(self).wf(),
        ensures
            final(self).wf(),
            forall|n: Seq<u8>| final(self).has(n) <==> (old(self).has(n) || n == name.spec_bytes()),
            final(self).device_data(name.spec_bytes()) == Some(device.data@),
            forall|n: Seq<u8>| n != name.spec_bytes() ==> #[trigger] final(self).device_data(n) == old(self).device_data(n),
            final(self).next_handle == old(self).next_handle,
            final(self).open_handles@ == old(self).open_handles@,
    {
        let key = name.as_bytes();
        let ghost nm = key@;
        let ghost old_names = self.names();
        let mut p: usize = 0;
        while p < self.devices.len() && bytes_lt(self.devices[p].0.as_slice(), key)
            invariant
                p <= self.devices@.len(),
                forall|k: int| 0 <= k < p ==> lex_lt(#[trigger] self.names()[k], nm),
                nm == key@,
            decreases self.devices@.len() - p,
        {
            p = p + 1;
        }
        if p < self.devices.len() && bytes_eq(self.devices[p].0.as_slice(), key) {
            let ghost before = self.devices@;
            let (k, _old) = self.devices.remove(p);
            self.devices.insert(p, (k, device));
            proof {
                assert(self.devices@ =~= before.update(p as int, (before[p as int].0, device)));
                assert(self.names() =~= old_names);
                assert(old_names[p as int] == nm);
                self.lemma_data_at(p as int);
                assert forall|n: Seq<u8>| n != nm implies #[trigger] self.device_data(n) == old(self).device_data(n) by {
                    if exists|i: int| 0 <= i < before.len() && #[trigger] before[i].0@ == n {
                        let i = choose|i: int| 0 <= i < before.len() && #[trigger] before[i].0@ == n;
                        old(self).lemma_data_at(i);
                        self.lemma_data_at(i);
                    } else {
                        assert(!exists|i: int| 0 <= i < self.devices@.len() && #[trigger] self.devices@[i].0@ == n) by {
                            if exists|i: int| 0 <= i < self.devices@.len() && #[trigger] self.devices@[i].0@ == n {
                                let i = choose|i: int| 0 <= i < self.devices@.len() && #[trigger] self.devices@[i].0@ == n;
                                assert(before[i].0@ == n);
                            }
                        }
                    }
                }
            }
        } else {
            let kv = vstd::slice::slice_to_vec(key);
            let ghost before = self.devices@;
            proof {
                if p < before.len() {
                    lemma_lex_total(old_names[p as int], nm);
                }
            }
            self.devices.insert(p, (kv, device));
            proof {
                let e = self.devices@[p as int];
                assert(self.devices@ =~= before.insert(p as int, e));
                assert(self.names() =~= old_names.insert(p as int, nm));
                let nn = self.names();
                assert forall|i: int, j: int| 0 <= i < j < nn.len() implies lex_lt(#[trigger] nn[i], #[trigger] nn[j]) by {
                    if j < p {
                        assert(nn[i] == old_names[i] && nn[j] == old_names[j]);
                    } else if j == p {
                        assert(nn[i] == old_names[i]);
                    } else if i == p {
                        assert(nn[j] == old_names[j - 1]);
                        if j - 1 > p {
                            assert(lex_lt(old_names[p as int], old_names[j - 1]));
                            lemma_lex_transitive(nm, old_names[p as int], old_names[j - 1]);
                        }
                    } else if i < p {
                        assert(nn[i] == old_names[i] && nn[j] == old_names[j - 1]);
                        assert(lex_lt(nm, old_names[j - 1])) by {
                            if j - 1 > p {
                                assert(lex_lt(old_names[p as int], old_names[j - 1]));
                                lemma_lex_transitive(nm, old_names[p as int], old_names[j - 1]);
                            }
                        }
                        lemma_lex_transitive(old_names[i], nm, old_names[j - 1]);
                    } else {
                        assert(nn[i] == old_names[i - 1] && nn[j] == old_names[j - 1]);
                    }
                }
                assert forall|n: Seq<u8>| self.has(n) <==> (old(self).has(n) || n == nm) by {
                    if self.has(n) {
                        let i = choose|i: int| 0 <= i < nn.len() && nn[i] == n;
                        if i < p {
                            assert(old_names[i] == n);
                        } else if i > p {
                            assert(old_names[i - 1] == n);
                        }
                    }
                    if old(self).has(n) {
                        let i = choose|i: int| 0 <= i < old_names.len() && old_names[i] == n;
                        if i < p {
                            assert(nn[i] == n);
                        } else {
                            assert(nn[i + 1] == n);
                        }
                    }
                    if n == nm {
                        assert(nn[p as int] == n);
                    }
                }
                self.lemma_data_at(p as int);
                assert forall|n: Seq<u8>| n != nm implies #[trigger] self.device_data(n) == old(self).device_data(n) by {
                    if exists|i: int| 0 <= i < before.len() && #[trigger] before[i].0@ == n {
                        let i = choose|i: int| 0 <= i < before.len() && #[trigger] before[i].0@ == n;
                        old(self).lemma_data_at(i);
                        if i < p {
                            assert(self.devices@[i] == before[i]);
                            self.lemma_data_at(i);
                        } else {
                            assert(self.devices@[i + 1] == before[i]);
                            self.lemma_data_at(i + 1);
                        }
                    } else {
                        assert(!exists|i: int| 0 <= i < self.devices@.len() && #[trigger] self.devices@[i].0@ == n) by {
                            if exists|i: int| 0 <= i < self.devices@.len() && #[trigger] self.devices@[i].0@ == n {
                                let i = choose|i: int| 0 <= i < self.devices@.len() && #[trigger] self.devices@[i].0@ == n;
                                if i < p {
                                    assert(before[i].0@ == n);
                                } else if i > p {
                                    assert(before[i - 1].0@ == n);
                                }
                            }
                        }
                    }
                }
            }
        }
    }

    /// The position of the device named `name`.
    fn position(&self, name: &[u8]) -> (r: Option<usize>)
        ensures
            r matches Some(i) ==> i < self.devices@.len() && self.devices@[i as int].0@ == name@,
            r is None ==> !self.has(name@),
            r is Some ==> self.has(name@),
    {
        let mut i: usize = 0;
        while i < self.devices.len()
            invariant
                i <= self.devices@.len(),
                forall|k: int| 0 <= k < i ==> self.devices@[k].0@ != name@,
            decreases self.devices@.len() - i,
        {
            if bytes_eq(self.devices[i].0.as_slice(), name) {
                proof {
                    assert(self.names()[i as int] == name@);
                }
                return Some(i);
            }
            i = i + 1;
        }
        proof {
            if self.has(name@) {
                let k = choose|k: int| 0 <= k < self.names().len() && self.names()[k] == name@;
                assert(self.devices@[k].0@ == name@);
            }
        }
        None
    }
}

impl FileSystem for DevFs {
    /// The root is a directory whose size is the number of devices; each
    /// listed device has size zero.
    open spec fn stat_model(&self, path: Seq<u8>) -> Result<FileStat, VfsError> {
        if path.len() == 0 {
            Ok(FileStat { file_type: FileType::Directory, size: self.devices@.len() as usize })
        } else if self.has(path) {
            Ok(FileStat { file_type: FileType::Device, size: 0 })
        } else {
            Err(VfsError::NotFound)
        }
    }

    /// Devices are found by their names as given.
    open spec fn path_key(path: Seq<u8>) -> Seq<u8> {
        path
    }

    /// Devices store no bytes.
    open spec fn content_model(&self, key: Seq<u8>) -> Option<Seq<u8>> {
        None
    }

    open spec fn inv(&self) -> bool {
        true
    }

    open spec fn next_handle_model(&self) -> FileHandle {
        self.next_handle
    }

    /// No handle is recorded.
    open spec fn handle_model(&self, h: FileHandle) -> Option<HandleModel> {
        None
    }

    /// The root lists every device; nothing else is a directory.
    open spec fn listing_model(&self, path: Seq<u8>) -> Option<Seq<(Seq<u8>, FileType)>> {
        if path.len() == 0 { Some(self.names().map_values(|n: Seq<u8>| (n, FileType::Device))) } else { None }
    }

    /// A fresh handle for a listed device; nothing is recorded against it.
    fn open(&mut self, path: &[u8], flags: OpenFlags) -> (r: Result<FileHandle, VfsError>)
        ensures
            old(self).has(path@) ==> r == Ok::<FileHandle, VfsError>(old(self).next_handle)
                && final(self).next_handle == old(self).next_handle.wrapping_add(1),
            !old(self).has(path@) ==> r == Err::<FileHandle, VfsError>(VfsError::NotFound)
                && final(self).next_handle == old(self).next_handle,
            final(self).devices@ == old(self).devices@,
            final(self).open_handles@ == old(self).open_handles@,
    {
        match self.position(path) {
            Some(_) => {
                let h = self.next_handle;
                self.next_handle = h.wrapping_add(1);
                Ok(h)
            },
            None => Err(VfsError::NotFound),
        }
    }

    /// Devices read as empty.
    fn read(&mut self, handle: FileHandle, buf: &mut [u8]) -> (r: Result<usize, VfsError>)
        ensures
            r == Ok::<usize, VfsError>(0),
            final(buf)@ == old(buf)@,
            *final(self) == *old(self),
    {
        Ok(0)
    }

    /// Devices swallow what is written to them.
    fn write(&mut self, handle: FileHandle, buf: &[u8]) -> (r: Result<usize, VfsError>)
        ensures
            r == Ok::<usize, VfsError>(buf@.len() as usize),
            *final(self) == *old(self),
    {
        Ok(buf.len())
    }

    fn close(&mut self, handle: FileHandle) -> (r: Result<(), VfsError>)
        ensures
            r == Ok::<(), VfsError>(()),
            *final(self) == *old(self),
    {
        Ok(())
    }

    /// The root lists every device, in order.
    fn readdir(&mut self, path: &[u8]) -> (r: Result<Vec<DirEntry>, VfsError>)
        ensures
            *final(self) == *old(self),
            path@.len() != 0 ==> r == Err::<Vec<DirEntry>, VfsError>(VfsError::NotADirectory),
            path@.len() == 0 ==> (r matches Ok(v) && v@.len() == old(self).names().len()
                && forall|i: int| 0 <= i < v@.len() ==> dir_entry_name(#[trigger] v@[i]) == cut_name(old(self).names()[i])
                    && v@[i].file_type == FileType::Device),
    {
        if path.len() != 0 {
            return Err(VfsError::NotADirectory);
        }
        let mut out: Vec<DirEntry> = Vec::new();
        let mut i: usize = 0;
        while i < self.devices.len()
            invariant
                i <= self.devices@.len(),
                out@.len() == i,
                forall|k: int| 0 <= k < i ==> dir_entry_name(#[trigger] out@[k]) == cut_name(self.names()[k])
                    && out@[k].file_type == FileType::Device && out@[k].name_len <= 64,
            decreases self.devices@.len() - i,
        {
            let e = DirEntry::new(self.devices[i].0.as_slice(), FileType::Device);
            out.push(e);
            i = i + 1;
        }
        Ok(out)
    }

    /// The first devices, as many as `entries` holds.
    fn readdir_into(&mut self, path: &[u8], entries: &mut [DirEntry]) -> (r: Result<usize, VfsError>)
        ensures
            *final(self) == *old(self),
            path@.len() != 0 ==> r == Err::<usize, VfsError>(VfsError::NotADirectory) && final(entries)@ == old(entries)@,
            path@.len() == 0 ==> {
                let count = if old(self).names().len() < old(entries)@.len() { old(self).names().len() as int } else { old(entries)@.len() as int };
                &&& r == Ok::<usize, VfsError>(count as usize)
                &&& forall|k: int| 0 <= k < count ==> dir_entry_name(#[trigger] final(entries)@[k]) == cut_name(old(self).names()[k])
                    && final(entries)@[k].file_type == FileType::Device
                &&& forall|j: int| count <= j < old(entries)@.len() ==> final(entries)@[j] == old(entries)@[j]
            },
            final(entries)@.len() == old(entries)@.len(),
    {
        if path.len() != 0 {
            return Err(VfsError::NotADirectory);
        }
        let mut count: usize = 0;
        while count < self.devices.len() && count < entries.len()
            invariant
                count <= self.devices@.len(),
                count <= entries@.len(),
                entries@.len() == old(entries)@.len(),
                forall|k: int| 0 <= k < count ==> dir_entry_name(#[trigger] entries@[k]) == cut_name(self.names()[k])
                    && entries@[k].file_type == FileType::Device && entries@[k].name_len <= 64,
                forall|j: int| count <= j < entries@.len() ==> entries@[j] == old(entries)@[j],
            decreases self.devices@.len() - count,
        {
            let e = DirEntry::new(self.devices[count].0.as_slice(), FileType::Device);
            entries[count] = e;
            count = count + 1;
        }
        Ok(count)
    }

    fn create(&mut self, path: &[u8]) -> (r: Result<(), VfsError>)
        ensures
            r == Err::<(), VfsError>(VfsError::Unsupported),
            *final(self) == *old(self),
    {
        Err(VfsError::Unsupported)
    }

    fn mkdir(&mut self, path: &[u8]) -> (r: Result<(), VfsError>)
        ensures
            r == Err::<(), VfsError>(VfsError::Unsupported),
            *final(self) == *old(self),
    {
        Err(VfsError::Unsupported)
    }

    fn remove(&mut self, path: &[u8]) -> (r: Result<(), VfsError>)
        ensures
            r == Err::<(), VfsError>(VfsError::Unsupported),
            *final(self) == *old(self),
    {
        Err(VfsError::Unsupported)
    }

    fn truncate(&mut self, path: &[u8]) -> (r: Result<(), VfsError>)
        ensures
            r == Err::<(), VfsError>(VfsError::Unsupported),
            *final(self) == *old(self),
    {
        Err(VfsError::Unsupported)
    }

    /// The root is a directory whose size is the number of devices; each
    /// device has size zero.
    fn stat(&mut self, path: &[u8]) -> (r: Result<FileStat, VfsError>)
        ensures
            *final(self) == *old(self),
            path@.len() == 0 ==> r == Ok::<FileStat, VfsError>(FileStat { file_type: FileType::Directory, size: old(self).devices@.len() as usize }),
            path@.len() != 0 && old(self).has(path@) ==> r == Ok::<FileStat, VfsError>(FileStat { file_type: FileType::Device, size: 0 }),
            path@.len() != 0 && !old(self).has(path@) ==> r == Err::<FileStat, VfsError>(VfsError::NotFound),
    {
        if path.len() == 0 {
            return Ok(FileStat { file_type: FileType::Directory, size: self.devices.len() });
        }
        match self.position(path) {
            Some(_) => Ok(FileStat { file_type: FileType::Device, size: 0 }),
            None => Err(VfsError::NotFound),
        }
    }
}

impl Default for DevFs {
    fn default() -> (r: Self)
        ensures
            r.wf(),
            r.names() == seq![seq![102u8, 98u8, 48u8], seq![107u8, 98u8, 100u8], seq![109u8, 111u8, 117u8, 115u8, 101u8]],
            r.next_handle == 1,
    {
        Self::new()
    }
}

} // verus!
