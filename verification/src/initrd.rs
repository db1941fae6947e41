//! The initial ramdisk store: named files, looked up by name.
use vstd::prelude::*;
use crate::text::str_eq;

verus! {

pub struct InitrdFile {
    pub name: String,
    pub data: Vec<u8>,
}

/// The files, in the order they were added.
pub struct Initrd {
    pub files: Vec<InitrdFile>,
}

/// The first position of a file named `name`.
pub open spec fn first_named(files: Seq<InitrdFile>, name: Seq<char>, from: int) -> Option<int>
    decreases files.len() - from,
{
    if from < 0 || from >= files.len() {
        None
    } else if files[from].name@ == name {
        Some(from)
    } else {
        first_named(files, name, from + 1)
    }
}

impl Initrd {
    pub fn new() -> (r: Self)
        ensures
            r.files@.len() == 0,
    {
        Initrd { files: Vec::new() }
    }

    pub fn add_file(&mut self, name: String, data: Vec<u8>)
        ensures
            final(self).files@.len() == old(self).files@.len() + 1,
            forall|i: int| 0 <= i < old(self).files@.len() ==> final(self).files@[i] == old(self).files@[i],
            final(self).files@.last().name@ == name@,
            final(self).files@.last().data@ == data@,
    {
        self.files.push(InitrdFile { name, data });
    }

    /// The contents of the first file named `name`.
    pub fn get_file(&self, name: &str) -> (r: Option<&[u8]>)
        ensures
            first_named(self.files@, name@, 0) matches Some(i) ==> (r matches Some(d) && d@ == self.files@[i].data@),
            first_named(self.files@, name@, 0) is None ==> r is None,
    {
        let mut i: usize = 0;
        while i < self.files.len()
            invariant
                i <= self.files@.len(),
                first_named(self.files@, name@, 0) == first_named(self.files@, name@, i as int),
            decreases self.files@.len() - i,
        {
            if str_eq(self.files[i].name.as_str(), name) {
                return Some(self.files[i].data.as_slice());
            }
            i = i + 1;
        }
        None
    }

    /// The file names, in order.
    pub fn list_files(&self) -> (r: Vec<&str>)
        ensures
            r@.len() == self.files@.len(),
            forall|i: int| 0 <= i < r@.len() ==> (#[trigger] r@[i])@ == self.files@[i].name@,
    {
        let mut out: Vec<&str> = Vec::new();
        let mut i: usize = 0;
        while i < self.files.len()
            invariant
                i <= self.files@.len(),
                out@.len() == i,
                forall|k: int| 0 <= k < i ==> (#[trigger] out@[k])@ == self.files@[k].name@,
            decreases self.files@.len() - i,
        {
            out.push(self.files[i].name.as_str());
            i = i + 1;
        }
        out
    }

    pub fn file_count(&self) -> (r: usize)
        ensures
            r == self.files@.len(),
    {
        self.files.len()
    }
}

} // verus!
