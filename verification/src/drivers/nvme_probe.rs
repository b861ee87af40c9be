//! Discovery of NVMe controllers among the scanned PCI functions.

use crate::arch::x86_64::pcie::PciDevice;
use vstd::prelude::*;

verus! {

/// Class code of mass storage.
pub const PCI_CLASS_MASS_STORAGE: u8 = 0x01;

/// Subclass of non-volatile memory controllers.
pub const PCI_SUBCLASS_NVM: u8 = 0x08;

/// Most controllers that a list holds.
pub const MAX_CONTROLLERS: usize = 8;

/// Mass storage, non-volatile memory, any programming interface.
pub open spec fn nvme_class(d: PciDevice) -> bool {
    d.class_code == PCI_CLASS_MASS_STORAGE && d.subclass == PCI_SUBCLASS_NVM
}

/// Whether `dev` is an NVMe controller.
pub fn is_nvme(dev: &PciDevice) -> (b: bool)
    ensures
        b == nvme_class(*dev),
{
    dev.class_code == PCI_CLASS_MASS_STORAGE && dev.subclass == PCI_SUBCLASS_NVM
}

/// A bounded list of controllers.
pub struct ControllerList {
    pub entries: Vec<PciDevice>,
}

impl ControllerList {
    pub open spec fn wf(&self) -> bool {
        self.entries@.len() <= MAX_CONTROLLERS
    }

    pub fn new() -> (l: ControllerList)
        ensures
            l.wf(),
            l.entries@ == Seq::<PciDevice>::empty(),
    {
        ControllerList { entries: Vec::new() }
    }

    /// Appends `d`, or drops it where the list is full.
    pub fn push(&mut self, d: PciDevice)
        requires
            old(self).wf(),
        ensures
            final(self).wf(),
            final(self).entries@ == (if old(self).entries@.len() < MAX_CONTROLLERS {
                old(self).entries@.push(d)
            } else {
                old(self).entries@
            }),
    {
        if self.entries.len() < MAX_CONTROLLERS {
            self.entries.push(d);
        }
    }

    pub fn len(&self) -> (n: usize)
        ensures
            n == self.entries@.len(),
    {
        self.entries.len()
    }

    pub fn is_empty(&self) -> (b: bool)
        ensures
            b == (self.entries@.len() == 0),
    {
        self.entries.len() == 0
    }

    /// The controllers, in the order in which they were pushed.
    pub fn iter(&self) -> (v: Vec<PciDevice>)
        ensures
            v@ == self.entries@,
    {
        let mut v: Vec<PciDevice> = Vec::new();
        let mut i: usize = 0;
        while i < self.entries.len()
            invariant
                i <= self.entries@.len(),
                v@ == self.entries@.take(i as int),
            decreases self.entries@.len() - i,
        {
            v.push(self.entries[i]);
            i = i + 1;
            assert(v@ =~= self.entries@.take(i as int));
        }
        assert(v@ =~= self.entries@);
        v
    }

    pub fn get(&self, idx: usize) -> (r: Option<&PciDevice>)
        ensures
            r == (if idx < self.entries@.len() {
                Some(&self.entries@[idx as int])
            } else {
                None
            }),
    {
        if idx < self.entries.len() {
            Some(&self.entries[idx])
        } else {
            None
        }
    }
}

impl Default for ControllerList {
    fn default() -> (l: ControllerList)
        ensures
            l.wf(),
            l.entries@ == Seq::<PciDevice>::empty(),
    {
        ControllerList::new()
    }
}

} // verus!
