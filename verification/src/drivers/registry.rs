//! The table of registered devices: up to 32 named devices with their class
//! and driver, a device re-registered under its name being replaced.
use vstd::prelude::*;
use vstd::string::StringSliceAdditionalSpecFns;
use crate::text::str_eq;

verus! {

pub const MAX_DEVICES: usize = 32;

#[derive(Clone, Copy, Debug, PartialEq, Eq, Structural)]
pub enum DeviceClass {
    Framebuffer,
    Input,
    Bus,
    UsbController,
    Block,
    Network,
    Other,
}

#[derive(Clone, Copy)]
pub struct DeviceRegistration {
    pub name: &'static str,
    pub class: DeviceClass,
    pub driver: &'static str,
}

/// A registration as views: name, class, driver.
pub open spec fn reg_view(r: DeviceRegistration) -> (Seq<char>, DeviceClass, Seq<char>) {
    (r.name@, r.class, r.driver@)
}

pub open spec fn regs_view(s: Seq<DeviceRegistration>) -> Seq<(Seq<char>, DeviceClass, Seq<char>)> {
    s.map_values(|r: DeviceRegistration| reg_view(r))
}

/// The registered devices, in registration order.
pub struct DeviceRegistry {
    pub devices: Vec<DeviceRegistration>,
}

/// The first position of a device named `name`, if any.
pub open spec fn name_index(s: Seq<(Seq<char>, DeviceClass, Seq<char>)>, name: Seq<char>) -> Option<int> {
    if exists|i: int| 0 <= i < s.len() && (#[trigger] s[i]).0 == name {
        Some(choose|i: int| 0 <= i < s.len() && (#[trigger] s[i]).0 == name
            && forall|j: int| 0 <= j < i ==> s[j].0 != name)
    } else {
        None
    }
}

impl DeviceRegistry {
    pub open spec fn view(&self) -> Seq<(Seq<char>, DeviceClass, Seq<char>)> {
        regs_view(self.devices@)
    }

    pub fn new() -> (r: Self)
        ensures
            r.view().len() == 0,
    {
        DeviceRegistry { devices: Vec::new() }
    }

    /// Registers a device: an entry of the same name is replaced in place;
    /// otherwise the device is added while there is room for 32.
    pub fn register(&mut self, name: &'static str, class: DeviceClass, driver: &'static str)
        requires
            old(self).view().len() <= MAX_DEVICES,
        ensures
            final(self).view().len() <= MAX_DEVICES,
            ({
                let old_v = old(self).view();
                let entry = (name@, class, driver@);
                match name_index(old_v, name@) {
                    Some(i) => final(self).view() == old_v.update(i, entry),
                    None => if old_v.len() < MAX_DEVICES {
                        final(self).view() == old_v.push(entry)
                    } else {
                        final(self).view() == old_v
                    },
                }
            }),
    {
        let mut i: usize = 0;
        while i < self.devices.len()
            invariant
                i <= self.devices@.len(),
                self.devices@ == old(self).devices@,
                old(self).view().len() <= MAX_DEVICES,
                forall|j: int| 0 <= j < i ==> (#[trigger] self.view()[j]).0 != name@,
            decreases self.devices@.len() - i,
        {
            if str_eq(self.devices[i].name, name) {
                let ghost v = self.view();
                self.devices.set(i, DeviceRegistration { name, class, driver });
                proof {
                    assert(v[i as int].0 == name@);
                    let k = choose|k: int| 0 <= k < v.len() && (#[trigger] v[k]).0 == name@
                        && forall|j: int| 0 <= j < k ==> v[j].0 != name@;
                    assert(k == i as int) by {
                        if k < i {
                        } else if k > i {
                            assert(v[i as int].0 == name@);
                        }
                    }
                    assert(self.view() =~= v.update(i as int, (name@, class, driver@)));
                }
                return;
            }
            i = i + 1;
        }
        proof {
            assert(self.view() == old(self).view());
            assert(!exists|k: int| 0 <= k < self.view().len() && (#[trigger] self.view()[k]).0 == name@);
            assert(name_index(old(self).view(), name@) is None);
        }
        if self.devices.len() < MAX_DEVICES {
            self.devices.push(DeviceRegistration { name, class, driver });
            proof {
                assert(self.view() =~= old(self).view().push((name@, class, driver@)));
            }
        }
    }

    /// Copies the first registrations into `out`, as many as fit, and says
    /// how many.
    pub fn snapshot(&self, out: &mut [Option<DeviceRegistration>]) -> (r: usize)
        ensures
            r == if self.devices@.len() < old(out)@.len() { self.devices@.len() } else { old(out)@.len() },
            final(out)@.len() == old(out)@.len(),
            forall|i: int| 0 <= i < r ==> ((#[trigger] final(out)@[i]) matches Some(d) && reg_view(d) == self.view()[i]),
            forall|i: int| r <= i < old(out)@.len() ==> final(out)@[i] == old(out)@[i],
    {
        let count = if self.devices.len() < out.len() { self.devices.len() } else { out.len() };
        let mut i: usize = 0;
        while i < count
            invariant
                count <= self.devices@.len(),
                count <= out@.len(),
                out@.len() == old(out)@.len(),
                i <= count,
                forall|k: int| 0 <= k < i ==> ((#[trigger] out@[k]) matches Some(d) && reg_view(d) == self.view()[k]),
                forall|k: int| count <= k < out@.len() ==> out@[k] == old(out)@[k],
            decreases count - i,
        {
            out[i] = Some(self.devices[i]);
            i = i + 1;
        }
        count
    }
}

/// The name of a device class.
pub fn class_name(class: DeviceClass) -> (r: &'static str)
    ensures
        r@ == match class {
            DeviceClass::Framebuffer => "framebuffer"@,
            DeviceClass::Input => "input"@,
            DeviceClass::Bus => "bus"@,
            DeviceClass::UsbController => "usb-controller"@,
            DeviceClass::Block => "block"@,
            DeviceClass::Network => "network"@,
            DeviceClass::Other => "other"@,
        },
{
    match class {
        DeviceClass::Framebuffer => "framebuffer",
        DeviceClass::Input => "input",
        DeviceClass::Bus => "bus",
        DeviceClass::UsbController => "usb-controller",
        DeviceClass::Block => "block",
        DeviceClass::Network => "network",
        DeviceClass::Other => "other",
    }
}

/// The device node published for `name`: `/dev/` and at most 64 bytes of
/// the name, when that is still valid UTF-8.
pub fn dev_node_path(name: &str) -> (r: Option<Vec<u8>>)
    ensures
        ({
            let b = name.spec_bytes();
            let p = "/dev/".spec_bytes() + b.take(if b.len() < 64 { b.len() as int } else { 64 });
            &&& vstd::utf8::valid_utf8(p) ==> (r matches Some(v) && v@ == p)
            &&& !vstd::utf8::valid_utf8(p) ==> r is None
        }),
{
    let b = name.as_bytes();
    let len = if b.len() < 64 { b.len() } else { 64 };
    let mut path = vstd::slice::slice_to_vec("/dev/".as_bytes());
    let ghost pre = path@;
    let mut i: usize = 0;
    while i < len
        invariant
            len <= b@.len(),
            i <= len,
            path@ == pre + b@.take(i as int),
        decreases len - i,
    {
        path.push(b[i]);
        proof {
            assert(path@ =~= pre + b@.take(i as int + 1));
        }
        i = i + 1;
    }
    match crate::text::str_from_utf8(path.as_slice()) {
        Some(_) => Some(path),
        None => None,
    }
}

} // verus!
