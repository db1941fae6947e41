//! The package list: installed packages by name, the base set, and the
//! catalogue of packages that can be installed.
use vstd::prelude::*;
use vstd::string::{StrSliceExecFns, StringExecFns};
use crate::text::str_eq;

verus! {

#[derive(Clone, Copy)]
pub struct Package {
    pub name: &'static str,
    pub version: &'static str,
    pub description: &'static str,
}

pub open spec fn pkg_view(p: Package) -> (Seq<char>, Seq<char>, Seq<char>) {
    (p.name@, p.version@, p.description@)
}

/// The installed packages, once the manager is initialised.
pub struct PackageDb {
    pub packages: Option<Vec<Package>>,
}

pub open spec fn names_of(s: Seq<Package>) -> Seq<Seq<char>> {
    s.map_values(|p: Package| p.name@)
}

/// The listing line of a package: two spaces before each field.
pub open spec fn pkg_line(p: Package) -> Seq<char> {
    "  "@ + p.name@ + "  "@ + p.version@ + "  "@ + p.description@ + "\n"@
}

pub open spec fn pkg_lines(s: Seq<Package>) -> Seq<char>
    decreases s.len(),
{
    if s.len() == 0 { Seq::empty() } else { pkg_lines(s.drop_last()) + pkg_line(s.last()) }
}

impl PackageDb {
    pub open spec fn installed(&self) -> Seq<Package> {
        match self.packages {
            Some(v) => v@,
            None => Seq::empty(),
        }
    }

    /// A manager that has not been initialised.
    pub fn new() -> (r: Self)
        ensures
            r.packages is None,
    {
        PackageDb { packages: None }
    }

    /// Starts with no packages installed.
    pub fn init(&mut self)
        ensures
            final(self).packages matches Some(v) && v@.len() == 0,
    {
        self.packages = Some(Vec::new());
    }

    /// Once initialised, an empty list gets the four base packages.
    pub fn ensure_base_packages(&mut self)
        ensures
            old(self).packages is None ==> final(self).packages is None,
            (old(self).packages matches Some(v) && v@.len() > 0) ==> final(self).installed() == old(self).installed(),
            (old(self).packages matches Some(v) && v@.len() == 0) ==> final(self).packages is Some
                && final(self).installed().map_values(|p: Package| pkg_view(p)) == seq![
                    ("dunit-base"@, "1.0.0"@, "Base system"@),
                    ("dunit-kernel"@, "1.0.0"@, "Kernel"@),
                    ("dunit-utils"@, "1.0.0"@, "System utilities"@),
                    ("dunit-drivers"@, "1.0.0"@, "Hardware drivers"@)],
            old(self).packages is Some ==> final(self).packages is Some,
    {
        match &self.packages {
            None => {},
            Some(v) => {
                if v.len() == 0 {
                    let mut base: Vec<Package> = Vec::new();
                    base.push(Package { name: "dunit-base", version: "1.0.0", description: "Base system" });
                    base.push(Package { name: "dunit-kernel", version: "1.0.0", description: "Kernel" });
                    base.push(Package { name: "dunit-utils", version: "1.0.0", description: "System utilities" });
                    base.push(Package { name: "dunit-drivers", version: "1.0.0", description: "Hardware drivers" });
                    proof {
                        assert(base@.map_values(|p: Package| pkg_view(p)) =~= seq![
                            ("dunit-base"@, "1.0.0"@, "Base system"@),
                            ("dunit-kernel"@, "1.0.0"@, "Kernel"@),
                            ("dunit-utils"@, "1.0.0"@, "System utilities"@),
                            ("dunit-drivers"@, "1.0.0"@, "Hardware drivers"@)]);
                    }
                    self.packages = Some(base);
                }
            },
        }
    }

    /// Whether a package of this name is installed.
    pub fn is_installed(&self, name: &str) -> (r: bool)
        ensures
            r == names_of(self.installed()).contains(name@),
    {
        match &self.packages {
            None => false,
            Some(v) => {
                let mut i: usize = 0;
                while i < v.len()
                    invariant
                        i <= v@.len(),
                        self.packages == Some(*v),
                        forall|k: int| 0 <= k < i ==> v@[k].name@ != name@,
                    decreases v@.len() - i,
                {
                    if str_eq(v[i].name, name) {
                        proof {
                            assert(names_of(self.installed())[i as int] == name@);
                        }
                        return true;
                    }
                    i = i + 1;
                }
                proof {
                    if names_of(self.installed()).contains(name@) {
                        let k = choose|k: int| 0 <= k < names_of(self.installed()).len() && names_of(self.installed())[k] == name@;
                        assert(v@[k].name@ == name@);
                    }
                }
                false
            },
        }
    }

    /// Installs a package unless one of that name is installed or the
    /// manager is not initialised; says whether it did.
    pub fn install(&mut self, name: &'static str, version: &'static str, description: &'static str) -> (r: bool)
        ensures
            r == (old(self).packages is Some && !names_of(old(self).installed()).contains(name@)),
            r ==> final(self).installed() == old(self).installed().push(Package { name, version, description }),
            !r ==> final(self).installed() == old(self).installed(),
            final(self).packages is Some == old(self).packages is Some,
    {
        if self.is_installed(name) {
            return false;
        }
        match &mut self.packages {
            Some(v) => {
                v.push(Package { name, version, description });
                true
            },
            None => false,
        }
    }

    /// Removes every package of this name; says whether any was.
    pub fn remove(&mut self, name: &str) -> (r: bool)
        ensures
            final(self).installed() == old(self).installed().filter(|p: Package| p.name@ != name@),
            r == (final(self).installed().len() < old(self).installed().len()),
            final(self).packages is Some == old(self).packages is Some,
    {
        match &mut self.packages {
            None => false,
            Some(v) => {
                let ghost before = v@;
                let len_before = v.len();
                let mut kept: Vec<Package> = Vec::new();
                let mut i: usize = 0;
                while i < v.len()
                    invariant
                        i <= v@.len(),
                        v@ == before,
                        kept@ == before.take(i as int).filter(|p: Package| p.name@ != name@),
                    decreases v@.len() - i,
                {
                    let p = v[i];
                    proof {
                        assert(before.take(i as int + 1).drop_last() =~= before.take(i as int));
                        reveal(Seq::filter);
                    }
                    if !str_eq(p.name, name) {
                        kept.push(p);
                    }
                    i = i + 1;
                }
                proof {
                    assert(before.take(before.len() as int) =~= before);
                    before.filter_lemma(|p: Package| p.name@ != name@);
                }
                *v = kept;
                v.len() < len_before
            },
        }
    }

    /// The listing: a heading and one line per package, or a note that the
    /// manager is not initialised. The base packages are added first when
    /// the list is empty.
    pub fn list(&mut self) -> (r: String)
        ensures
            old(self).packages is None ==> r@ == "Package manager not initialized"@,
            old(self).packages is Some ==> r@ == "Installed packages:\n"@ + pkg_lines(final(self).installed()),
    {
        self.ensure_base_packages();
        match &self.packages {
            None => String::from_str("Package manager not initialized"),
            Some(v) => {
                let mut out = String::from_str("Installed packages:\n");
                let mut i: usize = 0;
                proof {
                    assert(v@.take(0) =~= Seq::<Package>::empty());
                }
                while i < v.len()
                    invariant
                        i <= v@.len(),
                        out@ == "Installed packages:\n"@ + pkg_lines(v@.take(i as int)),
                    decreases v@.len() - i,
                {
                    let p = v[i];
                    out.append("  ");
                    out.append(p.name);
                    out.append("  ");
                    out.append(p.version);
                    out.append("  ");
                    out.append(p.description);
                    out.append("\n");
                    proof {
                        assert(v@.take(i as int + 1).drop_last() =~= v@.take(i as int));
                        assert(out@ =~= "Installed packages:\n"@ + pkg_lines(v@.take(i as int + 1)));
                    }
                    i = i + 1;
                }
                proof {
                    assert(v@.take(v@.len() as int) =~= v@);
                }
                out
            },
        }
    }
}

/// The catalogue: name, version and description of a package that can be
/// installed.
pub open spec fn catalogue(name: Seq<char>) -> Option<(Seq<char>, Seq<char>, Seq<char>)> {
    if name == "vim"@ { Some(("vim"@, "9.0.0"@, "Text editor"@)) }
    else if name == "gcc"@ { Some(("gcc"@, "13.2.0"@, "C compiler"@)) }
    else if name == "python"@ { Some(("python"@, "3.12.0"@, "Python interpreter"@)) }
    else if name == "rust"@ { Some(("rust"@, "1.75.0"@, "Rust compiler"@)) }
    else if name == "git"@ { Some(("git"@, "2.43.0"@, "Version control"@)) }
    else if name == "htop"@ { Some(("htop"@, "3.3.0"@, "Process monitor"@)) }
    else { None }
}

pub fn get_available_package(name: &str) -> (r: Option<(&'static str, &'static str, &'static str)>)
    ensures
        catalogue(name@) matches Some(c) ==> (r matches Some(t) && (t.0@, t.1@, t.2@) == c),
        catalogue(name@) is None ==> r is None,
{
    if str_eq(name, "vim") { return Some(("vim", "9.0.0", "Text editor")); }
    if str_eq(name, "gcc") { return Some(("gcc", "13.2.0", "C compiler")); }
    if str_eq(name, "python") { return Some(("python", "3.12.0", "Python interpreter")); }
    if str_eq(name, "rust") { return Some(("rust", "1.75.0", "Rust compiler")); }
    if str_eq(name, "git") { return Some(("git", "2.43.0", "Version control")); }
    if str_eq(name, "htop") { return Some(("htop", "3.3.0", "Process monitor")); }
    None
}

} // verus!
