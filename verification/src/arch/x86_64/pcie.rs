//! PCI enumeration over the legacy configuration mechanism.
//!
//! The identification registers of every function that responds arrive in a
//! [`ConfigSpace`]. The scan walks all 256 buses over it.

use crate::arch::x86_64::port::PortOp;
use crate::bits;
use crate::text;
use crate::text::{push_dec, push_hex_padded};
use vstd::prelude::*;

verus! {

pub const CONFIG_ADDRESS: u16 = 0x0CF8;

pub const CONFIG_DATA: u16 = 0x0CFC;

/// Vendor number of NVIDIA.
pub const VENDOR_NVIDIA: u16 = 0x10DE;

/// Vendor number that an absent function returns.
pub const VENDOR_INVALID: u16 = 0xFFFF;

/// Class code of display controllers.
pub const CLASS_DISPLAY: u8 = 0x03;

/// Largest number of functions that a scan records.
pub const MAX_DEVICES: usize = 256;

/// One captured PCI function.
#[derive(Clone, Copy, Debug, PartialEq, Eq, Structural)]
pub struct PciDevice {
    pub bus: u8,
    pub device: u8,
    pub function: u8,
    pub vendor_id: u16,
    pub device_id: u16,
    pub class_code: u8,
    pub subclass: u8,
    pub prog_if: u8,
    pub header_type: u8,
}

impl PciDevice {
    pub fn is_nvidia(&self) -> (b: bool)
        ensures
            b == (self.vendor_id == VENDOR_NVIDIA),
    {
        self.vendor_id == VENDOR_NVIDIA
    }

    pub fn is_display_controller(&self) -> (b: bool)
        ensures
            b == (self.class_code == CLASS_DISPLAY),
    {
        self.class_code == CLASS_DISPLAY
    }
}

/// The identification registers of one function.
#[derive(Clone, Copy, Debug, PartialEq, Eq, Structural)]
pub struct FunctionRegs {
    pub bus: u8,
    pub device: u8,
    pub function: u8,
    /// Register 0x00: device and vendor number.
    pub id: u32,
    /// Register 0x08: class, subclass, programming interface, revision.
    pub class_reg: u32,
    /// Register 0x0C: header type among others.
    pub header_reg: u32,
}

/// The functions that responded, in any order.
pub struct ConfigSpace {
    pub functions: Vec<FunctionRegs>,
}

/// Position of the first entry for a function, or the number of entries.
pub open spec fn entry_of(fs: Seq<FunctionRegs>, bus: int, device: int, function: int) -> int
    decreases fs.len(),
{
    if fs.len() == 0 {
        0
    } else {
        let e = entry_of(fs.drop_last(), bus, device, function);
        if e < fs.len() - 1 {
            e
        } else if fs.last().bus == bus && fs.last().device == device && fs.last().function
            == function {
            fs.len() - 1
        } else {
            fs.len() as int
        }
    }
}

/// The device that a function's registers describe; none where its vendor number is invalid.
pub open spec fn decoded(r: FunctionRegs) -> Option<PciDevice> {
    if r.id % 0x1_0000 == VENDOR_INVALID {
        None
    } else {
        Some(
            PciDevice {
                bus: r.bus,
                device: r.device,
                function: r.function,
                vendor_id: (r.id % 0x1_0000) as u16,
                device_id: (r.id / 0x1_0000) as u16,
                class_code: (r.class_reg / 0x100_0000) as u8,
                subclass: (r.class_reg / 0x1_0000 % 0x100) as u8,
                prog_if: (r.class_reg / 0x100 % 0x100) as u8,
                header_type: (r.header_reg / 0x1_0000 % 0x100) as u8,
            },
        )
    }
}

/// The function at an address, where one responds.
pub open spec fn probed(fs: Seq<FunctionRegs>, bus: int, device: int, function: int) -> Option<
    PciDevice,
> {
    let e = entry_of(fs, bus, device, function);
    if e < fs.len() {
        decoded(fs[e])
    } else {
        None
    }
}

pub open spec fn as_seq(d: Option<PciDevice>) -> Seq<PciDevice> {
    match d {
        Some(x) => seq![x],
        None => Seq::empty(),
    }
}

/// The functions below `n` of one device that respond, function zero first.
pub open spec fn functions_upto(fs: Seq<FunctionRegs>, bus: int, device: int, n: nat) -> Seq<
    PciDevice,
>
    decreases n,
{
    if n == 0 {
        Seq::empty()
    } else {
        functions_upto(fs, bus, device, (n - 1) as nat) + as_seq(probed(fs, bus, device, n - 1))
    }
}

/// What one device contributes: nothing if function zero is absent, function
/// zero alone unless its header says that there are more, else all eight.
pub open spec fn device_functions(fs: Seq<FunctionRegs>, bus: int, device: int) -> Seq<PciDevice> {
    match probed(fs, bus, device, 0) {
        None => Seq::empty(),
        Some(p) => if p.header_type >= 0x80 {
            functions_upto(fs, bus, device, 8)
        } else {
            seq![p]
        },
    }
}

/// The functions of the devices below `n` on one bus.
pub open spec fn devices_upto(fs: Seq<FunctionRegs>, bus: int, n: nat) -> Seq<PciDevice>
    decreases n,
{
    if n == 0 {
        Seq::empty()
    } else {
        devices_upto(fs, bus, (n - 1) as nat) + device_functions(fs, bus, n - 1)
    }
}

/// The functions of the buses below `n`.
pub open spec fn buses_upto(fs: Seq<FunctionRegs>, n: nat) -> Seq<PciDevice>
    decreases n,
{
    if n == 0 {
        Seq::empty()
    } else {
        buses_upto(fs, (n - 1) as nat) + devices_upto(fs, n - 1, 32)
    }
}

/// The first [`MAX_DEVICES`] entries.
pub open spec fn capped(s: Seq<PciDevice>) -> Seq<PciDevice> {
    if s.len() <= MAX_DEVICES {
        s
    } else {
        s.take(MAX_DEVICES as int)
    }
}

/// The highest bus below `n` that added to the recorded functions, zero if none did.
pub open spec fn top_bus(fs: Seq<FunctionRegs>, n: nat) -> int
    decreases n,
{
    if n == 0 {
        0
    } else if buses_upto(fs, (n - 1) as nat).len() < MAX_DEVICES && devices_upto(
        fs,
        n - 1,
        32,
    ).len() > 0 {
        n - 1
    } else {
        top_bus(fs, (n - 1) as nat)
    }
}

impl ConfigSpace {
    /// Reads one function's identification header.
    pub fn probe_function(&self, bus: u8, device: u8, function: u8) -> (d: Option<PciDevice>)
        ensures
            d == probed(self.functions@, bus as int, device as int, function as int),
    {
        let n: usize = self.functions.len();
        let mut i: usize = 0;
        while i < n
            invariant
                i <= n,
                n == self.functions@.len(),
                entry_of(self.functions@.take(i as int), bus as int, device as int, function as int)
                    == i,
            decreases n - i,
        {
            let r: FunctionRegs = self.functions[i];
            proof {
                let t = self.functions@.take(i + 1);
                assert(t.drop_last() =~= self.functions@.take(i as int));
                if r.bus == bus && r.device == device && r.function == function {
                    lemma_entry_stays(
                        self.functions@,
                        i + 1,
                        bus as int,
                        device as int,
                        function as int,
                    );
                }
            }
            if r.bus == bus && r.device == device && r.function == function {
                return decode(&r);
            }
            i = i + 1;
        }
        assert(self.functions@.take(n as int) =~= self.functions@);
        None
    }
}

/// An entry that is found in the first `n` registers is found in all of them.
proof fn lemma_entry_stays(fs: Seq<FunctionRegs>, n: int, bus: int, device: int, function: int)
    requires
        0 <= n <= fs.len(),
        entry_of(fs.take(n), bus, device, function) < n,
    ensures
        entry_of(fs, bus, device, function) == entry_of(fs.take(n), bus, device, function),
    decreases fs.len(),
{
    if n == fs.len() {
        assert(fs.take(n) =~= fs);
    } else {
        assert(fs.drop_last().take(n) =~= fs.take(n));
        lemma_entry_stays(fs.drop_last(), n, bus, device, function);
    }
}

fn decode(r: &FunctionRegs) -> (d: Option<PciDevice>)
    ensures
        d == decoded(*r),
{
    proof {
        bits::lemma_u32(r.id);
        bits::lemma_u32(r.id >> 16);
        bits::lemma_u32(r.class_reg);
        bits::lemma_u32(r.class_reg >> 8);
        bits::lemma_u32(r.class_reg >> 16);
        bits::lemma_u32(r.class_reg >> 24);
        bits::lemma_u32(r.header_reg);
        bits::lemma_u32(r.header_reg >> 16);
    }
    let vendor_id: u16 = (r.id & 0xFFFF) as u16;
    if vendor_id == VENDOR_INVALID {
        return None;
    }
    Some(
        PciDevice {
            bus: r.bus,
            device: r.device,
            function: r.function,
            vendor_id,
            device_id: ((r.id >> 16) & 0xFFFF) as u16,
            class_code: ((r.class_reg >> 24) & 0xFF) as u8,
            subclass: ((r.class_reg >> 16) & 0xFF) as u8,
            prog_if: ((r.class_reg >> 8) & 0xFF) as u8,
            header_type: ((r.header_reg >> 16) & 0xFF) as u8,
        },
    )
}

/// Result of a PCI scan.
pub struct PciScan {
    pub devices: Vec<PciDevice>,
    /// Highest bus number on which a recorded function responded.
    pub max_bus_seen: u16,
}

impl PciScan {
    pub open spec fn wf(&self) -> bool {
        self.devices@.len() <= MAX_DEVICES
    }

    pub fn empty() -> (s: PciScan)
        ensures
            s.wf(),
            s.devices@ == Seq::<PciDevice>::empty(),
            s.max_bus_seen == 0,
    {
        PciScan { devices: Vec::new(), max_bus_seen: 0 }
    }

    pub fn count(&self) -> (n: usize)
        ensures
            n == self.devices@.len(),
    {
        self.devices.len()
    }

    /// The recorded functions, in the order in which they were found.
    pub fn iter(&self) -> (v: Vec<PciDevice>)
        ensures
            v@ == self.devices@,
    {
        let mut v: Vec<PciDevice> = Vec::new();
        let mut i: usize = 0;
        while i < self.devices.len()
            invariant
                i <= self.devices@.len(),
                v@ == self.devices@.take(i as int),
            decreases self.devices@.len() - i,
        {
            v.push(self.devices[i]);
            i = i + 1;
            assert(v@ =~= self.devices@.take(i as int));
        }
        assert(v@ =~= self.devices@);
        v
    }

    pub fn nvidia_count(&self) -> (n: usize)
        ensures
            n == self.devices@.filter(|d: PciDevice| d.vendor_id == VENDOR_NVIDIA).len(),
    {
        let ghost nv = |d: PciDevice| d.vendor_id == VENDOR_NVIDIA;
        let mut n: usize = 0;
        let mut i: usize = 0;
        assert(self.devices@.take(0).filter(nv).len() == 0) by {
            reveal(Seq::filter);
        }
        while i < self.devices.len()
            invariant
                i <= self.devices@.len(),
                n <= i,
                nv == (|d: PciDevice| d.vendor_id == VENDOR_NVIDIA),
                n == self.devices@.take(i as int).filter(nv).len(),
            decreases self.devices@.len() - i,
        {
            assert(self.devices@.take(i + 1).drop_last() =~= self.devices@.take(i as int));
            assert(self.devices@.take(i + 1).filter(nv).len() == n + (if nv(self.devices@[i as int]) {
                1int
            } else {
                0
            })) by {
                reveal(Seq::filter);
            }
            if self.devices[i].is_nvidia() {
                n = n + 1;
            }
            i = i + 1;
        }
        assert(self.devices@.take(i as int) =~= self.devices@);
        n
    }

    pub fn max_bus_seen(&self) -> (b: u16)
        ensures
            b == self.max_bus_seen,
    {
        self.max_bus_seen
    }
}

/// Records one function, or drops it where the list is full.
pub fn push(scan: &mut PciScan, dev: PciDevice)
    requires
        old(scan).wf(),
    ensures
        final(scan).wf(),
        final(scan).devices@ == capped(old(scan).devices@.push(dev)),
        final(scan).max_bus_seen == old(scan).max_bus_seen,
{
    if scan.devices.len() < MAX_DEVICES {
        scan.devices.push(dev);
    } else {
        assert(scan.devices@.push(dev).take(256) =~= scan.devices@);
    }
}

/// Cutting in between changes nothing of the cut at the end.
proof fn lemma_capped_absorbs(a: Seq<PciDevice>, b: Seq<PciDevice>)
    ensures
        capped(capped(a) + b) == capped(a + b),
{
    if a.len() > MAX_DEVICES {
        assert((capped(a) + b).take(256) =~= a.take(256));
        assert((a + b).take(256) =~= a.take(256));
        if b.len() == 0 {
            assert(capped(a) + b =~= a.take(256));
        }
    }
}

/// Enumerates one bus and records what responds.
pub fn scan_single_bus(cs: &ConfigSpace, scan: &mut PciScan, bus: u8)
    requires
        old(scan).wf(),
    ensures
        final(scan).wf(),
        final(scan).devices@ == capped(
            old(scan).devices@ + devices_upto(cs.functions@, bus as int, 32),
        ),
        final(scan).max_bus_seen == old(scan).max_bus_seen,
{
    let ghost fs = cs.functions@;
    let ghost start = scan.devices@;
    let mut device: u8 = 0;
    assert(start + devices_upto(fs, bus as int, 0) =~= start);
    while device < 32
        invariant
            device <= 32,
            scan.wf(),
            fs == cs.functions@,
            scan.max_bus_seen == old(scan).max_bus_seen,
            scan.devices@ == capped(start + devices_upto(fs, bus as int, device as nat)),
        decreases 32 - device,
    {
        let ghost before = start + devices_upto(fs, bus as int, device as nat);
        let ghost here = device_functions(fs, bus as int, device as int);
        proof {
            assert(start + devices_upto(fs, bus as int, (device + 1) as nat) =~= before + here);
        }
        match cs.probe_function(bus, device, 0) {
            None => {
                assert(before + here =~= before);
            },
            Some(primary) => {
                push(scan, primary);
                proof {
                    bits::lemma_u8(primary.header_type);
                    lemma_capped_absorbs(before, seq![primary]);
                    assert(capped(before).push(primary) =~= capped(before) + seq![primary]);
                }
                if primary.header_type & 0x80 != 0 {
                    let mut function: u8 = 1;
                    proof {
                        reveal_with_fuel(functions_upto, 2);
                        assert(functions_upto(fs, bus as int, device as int, 1) =~= seq![primary]);
                    }
                    while function < 8
                        invariant
                            1 <= function <= 8,
                            scan.wf(),
                            fs == cs.functions@,
                            scan.max_bus_seen == old(scan).max_bus_seen,
                            scan.devices@ == capped(
                                before + functions_upto(
                                    fs,
                                    bus as int,
                                    device as int,
                                    function as nat,
                                ),
                            ),
                        decreases 8 - function,
                    {
                        let ghost f0 = functions_upto(
                            fs,
                            bus as int,
                            device as int,
                            function as nat,
                        );
                        let d = cs.probe_function(bus, device, function);
                        proof {
                            assert(functions_upto(
                                fs,
                                bus as int,
                                device as int,
                                (function + 1) as nat,
                            ) =~= f0 + as_seq(d));
                            assert(before + (f0 + as_seq(d)) =~= (before + f0) + as_seq(d));
                            lemma_capped_absorbs(before + f0, as_seq(d));
                        }
                        match d {
                            Some(x) => {
                                assert(scan.devices@.push(x) =~= scan.devices@ + as_seq(d));
                                push(scan, x);
                            },
                            None => {
                                assert((before + f0) + as_seq(d) =~= before + f0);
                            },
                        }
                        function = function + 1;
                    }
                }
            },
        }
        device = device + 1;
    }
}

/// Enumerates bus zero only.
pub fn scan_bus0(cs: &ConfigSpace) -> (scan: PciScan)
    ensures
        scan.wf(),
        scan.devices@ == capped(devices_upto(cs.functions@, 0, 32)),
        scan.max_bus_seen == 0,
{
    let mut scan = PciScan::empty();
    scan_single_bus(cs, &mut scan, 0);
    assert(Seq::<PciDevice>::empty() + devices_upto(cs.functions@, 0, 32) =~= devices_upto(
        cs.functions@,
        0,
        32,
    ));
    scan
}

/// Once the list is full, further buses change neither the list nor the top bus.
proof fn lemma_full_stays(fs: Seq<FunctionRegs>, n: nat, m: nat)
    requires
        n <= m,
        buses_upto(fs, n).len() >= MAX_DEVICES,
    ensures
        capped(buses_upto(fs, m)) == capped(buses_upto(fs, n)),
        buses_upto(fs, m).len() >= MAX_DEVICES,
        top_bus(fs, m) == top_bus(fs, n),
    decreases m,
{
    if n < m {
        lemma_full_stays(fs, n, (m - 1) as nat);
        let a = buses_upto(fs, (m - 1) as nat);
        let b = devices_upto(fs, m - 1, 32);
        assert((a + b).take(256) =~= a.take(256));
        assert(a.len() == 256 ==> a.take(256) =~= a);
    }
}

/// Enumerates all 256 buses.
pub fn scan_all_buses(cs: &ConfigSpace) -> (scan: PciScan)
    ensures
        scan.wf(),
        scan.devices@ == capped(buses_upto(cs.functions@, 256)),
        scan.max_bus_seen == top_bus(cs.functions@, 256),
{
    let ghost fs = cs.functions@;
    let mut scan = PciScan::empty();
    let mut bus: u16 = 0;
    while bus < 256
        invariant
            bus <= 256,
            fs == cs.functions@,
            scan.wf(),
            scan.devices@ == capped(buses_upto(fs, bus as nat)),
            scan.max_bus_seen == top_bus(fs, bus as nat),
        decreases 256 - bus,
    {
        let before: usize = scan.count();
        let ghost a = buses_upto(fs, bus as nat);
        let ghost b = devices_upto(fs, bus as int, 32);
        scan_single_bus(cs, &mut scan, bus as u8);
        proof {
            lemma_capped_absorbs(a, b);
        }
        if scan.count() > before {
            scan.max_bus_seen = bus;
        }
        bus = bus + 1;
        assert(buses_upto(fs, bus as nat) == a + b);
        if scan.count() >= MAX_DEVICES {
            proof {
                lemma_full_stays(fs, bus as nat, 256);
            }
            return scan;
        }
    }
    scan
}

/// Whether `d` responds in the configuration space.
pub open spec fn responds(fs: Seq<FunctionRegs>, d: PciDevice) -> bool {
    probed(fs, d.bus as int, d.device as int, d.function as int) == Some(d)
}

proof fn lemma_probed_responds(fs: Seq<FunctionRegs>, bus: int, device: int, function: int)
    ensures
        probed(fs, bus, device, function) matches Some(d) ==> responds(fs, d) && d.bus == bus
            && d.device == device && d.function == function,
{
    lemma_entry_matches(fs, bus, device, function);
}

proof fn lemma_entry_matches(fs: Seq<FunctionRegs>, bus: int, device: int, function: int)
    ensures
        0 <= entry_of(fs, bus, device, function) <= fs.len(),
        entry_of(fs, bus, device, function) < fs.len() ==> {
            let r = fs[entry_of(fs, bus, device, function)];
            r.bus == bus && r.device == device && r.function == function
        },
    decreases fs.len(),
{
    if fs.len() > 0 {
        lemma_entry_matches(fs.drop_last(), bus, device, function);
    }
}

/// Position of an address in the order of the walk.
pub open spec fn address_order(d: PciDevice) -> int {
    d.bus * 256 + d.device * 8 + d.function
}

/// In order of address, strictly, all of them responding, all below `limit`.
pub open spec fn ordered_below(fs: Seq<FunctionRegs>, s: Seq<PciDevice>, lo: int, hi: int) -> bool {
    &&& forall|i: int| 0 <= i < s.len() ==> #[trigger] responds(fs, s[i])
    &&& forall|i: int| 0 <= i < s.len() ==> lo <= #[trigger] address_order(s[i]) < hi
    &&& forall|i: int, j: int|
        0 <= i < j < s.len() ==> #[trigger] address_order(s[i]) < #[trigger] address_order(s[j])
}

proof fn lemma_functions_ordered(fs: Seq<FunctionRegs>, bus: int, device: int, n: nat)
    requires
        n <= 8,
    ensures
        ordered_below(
            fs,
            functions_upto(fs, bus, device, n),
            bus * 256 + device * 8,
            bus * 256 + device * 8 + n,
        ),
    decreases n,
{
    if n > 0 {
        lemma_functions_ordered(fs, bus, device, (n - 1) as nat);
        lemma_probed_responds(fs, bus, device, n - 1);
    }
}

proof fn lemma_devices_ordered(fs: Seq<FunctionRegs>, bus: int, n: nat)
    requires
        n <= 32,
    ensures
        ordered_below(fs, devices_upto(fs, bus, n), bus * 256, bus * 256 + n * 8),
    decreases n,
{
    if n > 0 {
        lemma_devices_ordered(fs, bus, (n - 1) as nat);
        lemma_functions_ordered(fs, bus, n - 1, 8);
        lemma_probed_responds(fs, bus, n - 1, 0);
    }
}

proof fn lemma_buses_ordered(fs: Seq<FunctionRegs>, n: nat)
    requires
        n <= 256,
    ensures
        ordered_below(fs, buses_upto(fs, n), 0, n as int * 256),
    decreases n,
{
    if n > 0 {
        lemma_buses_ordered(fs, (n - 1) as nat);
        lemma_devices_ordered(fs, n - 1, 32);
    }
}

/// A scan of all buses holds only functions that respond, each once, in order
/// of bus, device and function number.
pub proof fn lemma_scan_sound(fs: Seq<FunctionRegs>)
    ensures
        ordered_below(fs, capped(buses_upto(fs, 256)), 0, 0x1_0000),
{
    lemma_buses_ordered(fs, 256);
}

/// The registers of a function read back: the vendor below the device number; from the
/// top, class, subclass, programming interface and revision; and, from the top, self
/// test, header type, latency and line size.
pub proof fn lemma_registers_read_back(d: PciDevice, revision: u8, bist: u8, latency: u8, line: u8)
    ensures
        decoded(
            (FunctionRegs {
                bus: d.bus,
                device: d.device,
                function: d.function,
                id: (d.device_id * 0x1_0000 + d.vendor_id) as u32,
                class_reg: (d.class_code * 0x100_0000 + d.subclass * 0x1_0000 + d.prog_if * 0x100
                    + revision) as u32,
                header_reg: (bist * 0x100_0000 + d.header_type * 0x1_0000 + latency * 0x100
                    + line) as u32,
            }),
        ) == (if d.vendor_id == 0xFFFF {
            None
        } else {
            Some(d)
        }),
{
    let id = d.device_id * 0x1_0000 + d.vendor_id;
    assert(id % 0x1_0000 == d.vendor_id && id / 0x1_0000 == d.device_id);
    lemma_four_bytes(d.class_code, d.subclass, d.prog_if, revision);
    lemma_four_bytes(bist, d.header_type, latency, line);
}

proof fn lemma_four_bytes(a: u8, b: u8, c: u8, d: u8)
    ensures
        ({
            let x = a * 0x100_0000 + b * 0x1_0000 + c * 0x100 + d;
            &&& 0 <= x <= u32::MAX
            &&& x / 0x100_0000 == a
            &&& x / 0x1_0000 % 0x100 == b
            &&& x / 0x100 % 0x100 == c
        }),
{
    let x = a * 0x100_0000 + b * 0x1_0000 + c * 0x100 + d;
    assert(x / 0x100 == a * 0x1_0000 + b * 0x100 + c);
    assert(x / 0x1_0000 == a * 0x100 + b);
    assert(x / 0x100_0000 == a);
}

/// The walk comes by the function: it is the first of its device, or the first of its
/// device says that there are more.
pub open spec fn walked(fs: Seq<FunctionRegs>, d: PciDevice) -> bool {
    d.device < 32 && d.function < 8 && (d.function == 0 || (probed(
        fs,
        d.bus as int,
        d.device as int,
        0,
    ) matches Some(first) && first.header_type >= 0x80))
}

proof fn lemma_functions_have(fs: Seq<FunctionRegs>, bus: int, device: int, n: nat, d: PciDevice)
    ensures
        functions_upto(fs, bus, device, n).contains(d) <==> responds(fs, d) && d.bus == bus
            && d.device == device && d.function < n,
    decreases n,
{
    if n > 0 {
        let before = functions_upto(fs, bus, device, (n - 1) as nat);
        let last = as_seq(probed(fs, bus, device, n - 1));
        lemma_functions_have(fs, bus, device, (n - 1) as nat, d);
        lemma_probed_responds(fs, bus, device, n - 1);
        lemma_contains_concat(before, last, d);
        if let Some(x) = probed(fs, bus, device, n - 1) {
            assert(last[0] == x);
        }
    }
}

proof fn lemma_contains_concat(a: Seq<PciDevice>, b: Seq<PciDevice>, d: PciDevice)
    ensures
        (a + b).contains(d) <==> a.contains(d) || b.contains(d),
{
    let c = a + b;
    if a.contains(d) {
        let i = choose|i: int| 0 <= i < a.len() && a[i] == d;
        assert(c[i] == d);
    }
    if b.contains(d) {
        let i = choose|i: int| 0 <= i < b.len() && b[i] == d;
        assert(c[a.len() + i] == d);
    }
    if c.contains(d) {
        let i = choose|i: int| 0 <= i < c.len() && c[i] == d;
        if i < a.len() {
            assert(a[i] == d);
        } else {
            assert(b[i - a.len()] == d);
        }
    }
}

proof fn lemma_devices_have(fs: Seq<FunctionRegs>, bus: int, n: nat, d: PciDevice)
    requires
        n <= 32,
    ensures
        devices_upto(fs, bus, n).contains(d) <==> responds(fs, d) && walked(fs, d) && d.bus == bus
            && d.device < n,
    decreases n,
{
    if n > 0 {
        let k = n - 1;
        let last = device_functions(fs, bus, k);
        lemma_devices_have(fs, bus, k as nat, d);
        lemma_contains_concat(devices_upto(fs, bus, k as nat), last, d);
        lemma_functions_have(fs, bus, k, 8, d);
        lemma_probed_responds(fs, bus, k, 0);
        if let Some(p) = probed(fs, bus, k, 0) {
            if p.header_type < 0x80 {
                assert(last[0] == p);
            }
        }
    }
}

proof fn lemma_buses_have(fs: Seq<FunctionRegs>, n: nat, d: PciDevice)
    requires
        n <= 256,
    ensures
        buses_upto(fs, n).contains(d) <==> responds(fs, d) && walked(fs, d) && d.bus < n,
    decreases n,
{
    if n > 0 {
        lemma_buses_have(fs, (n - 1) as nat, d);
        lemma_contains_concat(buses_upto(fs, (n - 1) as nat), devices_upto(fs, n - 1, 32), d);
        lemma_devices_have(fs, n - 1, 32, d);
    }
}

/// A scan of all buses that does not fill up finds every function that responds and
/// that the walk comes by, and no other.
pub proof fn lemma_scan_complete(fs: Seq<FunctionRegs>, d: PciDevice)
    requires
        buses_upto(fs, 256).len() <= MAX_DEVICES,
    ensures
        capped(buses_upto(fs, 256)).contains(d) <==> responds(fs, d) && walked(fs, d),
{
    lemma_buses_have(fs, 256, d);
}

/// The highest bus that was seen is that of the last function recorded.
pub proof fn lemma_top_bus_is_last(fs: Seq<FunctionRegs>, n: nat)
    requires
        n <= 256,
    ensures
        top_bus(fs, n) == (if capped(buses_upto(fs, n)).len() == 0 {
            0
        } else {
            capped(buses_upto(fs, n)).last().bus as int
        }),
    decreases n,
{
    if n > 0 {
        let before = buses_upto(fs, (n - 1) as nat);
        let last = devices_upto(fs, n - 1, 32);
        lemma_top_bus_is_last(fs, (n - 1) as nat);
        let s = capped(before + last);
        if before.len() < MAX_DEVICES && last.len() > 0 {
            let x = s.last();
            assert(x == last[s.len() - 1 - before.len()]);
            assert(last.contains(x));
            lemma_devices_have(fs, n - 1, 32, x);
        } else if before.len() >= MAX_DEVICES {
            assert(s =~= capped(before));
        } else {
            assert(before + last =~= before);
        }
    }
}

/// The address word that selects a register of a function.
pub open spec fn config_word(bus: u8, device: u8, function: u8, offset: u8) -> int {
    0x8000_0000 + bus * 0x1_0000 + (device % 32) * 0x800 + (function % 8) * 0x100 + offset / 4 * 4
}

pub fn config_address(bus: u8, device: u8, function: u8, offset: u8) -> (a: u32)
    ensures
        a == config_word(bus, device, function, offset),
{
    assert((1u32 << 31) | ((bus as u32) << 16) | (((device as u32) & 0x1F) << 11) | (((
    function as u32) & 0x07) << 8) | ((offset as u32) & 0xFC) == 0x8000_0000 + bus * 0x1_0000 + (
    device % 32) * 0x800 + (function % 8) * 0x100 + offset / 4 * 4) by (bit_vector);
    (1u32 << 31) | ((bus as u32) << 16) | (((device as u32) & 0x1F) << 11) | (((function as u32)
        & 0x07) << 8) | ((offset as u32) & 0xFC)
}

proof fn lemma_word_parts(b: u8, d: u8, f: u8, o: u8)
    requires
        d < 32,
        f < 8,
        o % 4 == 0,
    ensures
        (config_word(b, d, f, o) - 0x8000_0000) / 0x1_0000 == b,
        config_word(b, d, f, o) / 0x800 % 32 == d,
        config_word(b, d, f, o) / 0x100 % 8 == f,
        config_word(b, d, f, o) % 0x100 == o,
{
    let w = config_word(b, d, f, o);
    assert(w == 0x8000_0000 + b * 0x1_0000 + d * 0x800 + f * 0x100 + o);
    assert(w / 0x100 == 0x80_0000 + b * 0x100 + d * 8 + f);
    assert(w / 0x800 == 0x10_0000 + b * 0x20 + d);
}

/// Two different registers never share an address word.
pub proof fn lemma_config_word_injective(
    b1: u8,
    d1: u8,
    f1: u8,
    o1: u8,
    b2: u8,
    d2: u8,
    f2: u8,
    o2: u8,
)
    requires
        d1 < 32 && d2 < 32,
        f1 < 8 && f2 < 8,
        o1 % 4 == 0 && o2 % 4 == 0,
        config_word(b1, d1, f1, o1) == config_word(b2, d2, f2, o2),
    ensures
        b1 == b2 && d1 == d2 && f1 == f2 && o1 == o2,
{
    lemma_word_parts(b1, d1, f1, o1);
    lemma_word_parts(b2, d2, f2, o2);
}

/// Reads a 32-bit register: the value is what the last operation returns.
pub fn config_read32(bus: u8, device: u8, function: u8, offset: u8) -> (ops: Vec<PortOp>)
    ensures
        ops@ == seq![
            PortOp::Out32 {
                port: CONFIG_ADDRESS,
                value: config_word(bus, device, function, offset) as u32,
            },
            PortOp::In32 { port: CONFIG_DATA },
        ],
{
    let address: u32 = config_address(bus, device, function, offset);
    let ops: Vec<PortOp> = vec![
        PortOp::Out32 { port: CONFIG_ADDRESS, value: address },
        PortOp::In32 { port: CONFIG_DATA },
    ];
    assert(ops@ =~= seq![
        PortOp::Out32 { port: CONFIG_ADDRESS, value: address },
        PortOp::In32 { port: CONFIG_DATA },
    ]);
    ops
}

/// Writes a 32-bit register.
pub fn config_write32(bus: u8, device: u8, function: u8, offset: u8, value: u32) -> (ops: Vec<
    PortOp,
>)
    ensures
        ops@ == seq![
            PortOp::Out32 {
                port: CONFIG_ADDRESS,
                value: config_word(bus, device, function, offset) as u32,
            },
            PortOp::Out32 { port: CONFIG_DATA, value },
        ],
{
    let address: u32 = config_address(bus, device, function, offset);
    let ops: Vec<PortOp> = vec![
        PortOp::Out32 { port: CONFIG_ADDRESS, value: address },
        PortOp::Out32 { port: CONFIG_DATA, value },
    ];
    assert(ops@ =~= seq![
        PortOp::Out32 { port: CONFIG_ADDRESS, value: address },
        PortOp::Out32 { port: CONFIG_DATA, value },
    ]);
    ops
}

/// The half of the word `dw` that the 16-bit field at `offset` occupies.
pub open spec fn half(dw: u32, offset: u8) -> int {
    if offset / 2 % 2 == 0 {
        dw as int % 0x1_0000
    } else {
        dw as int / 0x1_0000
    }
}

/// The 16-bit field at `offset` of the register word `dw` that holds it.
pub fn config_read16(dw: u32, offset: u8) -> (v: u16)
    ensures
        v == half(dw, offset),
{
    proof {
        bits::lemma_u8(offset);
        bits::lemma_u32(dw);
        bits::lemma_u32(dw >> 16);
        assert(dw >> 0u32 == dw) by (bit_vector);
    }
    let shift: u32 = ((offset & 0x02) * 8) as u32;
    ((dw >> shift) & 0xFFFF) as u16
}

/// The register word `dw` with `value` in its 16-bit field at `offset` and the
/// other half as it was.
pub fn config_write16(dw: u32, offset: u8, value: u16) -> (r: u32)
    ensures
        r == (if offset / 2 % 2 == 0 {
            dw - dw % 0x1_0000 + value
        } else {
            dw % 0x1_0000 + value * 0x1_0000
        }),
        half(r, offset) == value,
{
    proof {
        bits::lemma_u8(offset);
        assert((dw & !(0xFFFFu32 << 0u32)) | ((value as u32) << 0u32) == dw - dw % 0x1_0000 + value
            && (dw & !(0xFFFFu32 << 16u32)) | ((value as u32) << 16u32) == dw % 0x1_0000 + value
            * 0x1_0000) by (bit_vector);
    }
    let shift: u32 = ((offset & 0x02) * 8) as u32;
    (dw & !(0xFFFFu32 << shift)) | ((value as u32) << shift)
}

/// The physical base of memory BAR `bar`, given the six BAR registers. None for
/// an index above five, an I/O BAR, a reserved type, a 64-bit BAR without a
/// second register, or a zero address.
pub open spec fn bar_base(bars: Seq<u32>, bar: int) -> Option<u64> {
    let raw = bars[bar];
    let low = raw - raw % 16;
    let kind = raw / 2 % 4;
    let addr = if kind == 0 {
        low
    } else {
        low + bars[bar + 1] * 0x1_0000_0000
    };
    if bar > 5 || raw % 2 != 0 || (kind != 0 && kind != 2) || (kind == 2 && bar >= 5) || addr == 0 {
        None
    } else {
        Some(addr as u64)
    }
}

/// The base reads back from the registers that carry it: one for a memory BAR of 32
/// bits, two, the lower first, for one of 64 bits, each with its marks in the four bits
/// below. A register for ports has no memory base.
pub proof fn lemma_bar_reads_back(bars: Seq<u32>, bar: int, base: u64, prefetch: bool, port: u32)
    requires
        bars.len() == 6,
        0 <= bar < 6,
        base % 16 == 0,
        base != 0,
    ensures
        base <= u32::MAX ==> bar_base(
            bars.update(bar, (base + if prefetch { 8int } else { 0 }) as u32),
            bar,
        ) == Some(base),
        bar < 5 ==> bar_base(
            bars.update(
                bar,
                (base as int % 0x1_0000_0000 + 4 + if prefetch { 8int } else { 0 }) as u32,
            ).update(bar + 1, (base as int / 0x1_0000_0000) as u32),
            bar,
        ) == Some(base),
        port % 2 == 1 ==> bar_base(bars.update(bar, port), bar) is None,
{
    let mark: int = if prefetch {
        8
    } else {
        0
    };
    if base <= u32::MAX {
        let raw = (base + mark) as u32;
        assert(raw % 16 == mark && raw / 2 % 4 == 0 && raw % 2 == 0);
    }
    if bar < 5 {
        let low = base as int % 0x1_0000_0000;
        let hi = base as int / 0x1_0000_0000;
        assert(low % 16 == 0);
        let raw = (low + 4 + mark) as u32;
        assert(raw % 16 == 4 + mark && raw / 2 % 4 == 2 && raw % 2 == 0);
        let b = bars.update(bar, raw).update(bar + 1, hi as u32);
        assert(b[bar] == raw && b[bar + 1] == hi);
        assert(raw - raw % 16 + hi * 0x1_0000_0000 == base);
    }
}

/// Reads the base of a memory BAR.
pub fn read_bar(bars: &[u32; 6], bar: u8) -> (base: Option<u64>)
    ensures
        base == bar_base(bars@, bar as int),
{
    if bar > 5 {
        return None;
    }
    let raw: u32 = bars[bar as usize];
    proof {
        bits::lemma_u32(raw);
        bits::lemma_u32(raw >> 1);
    }
    if raw == 0 || raw & 0x1 != 0 {
        return None;
    }
    let bar_type: u32 = (raw >> 1) & 0x3;
    let low: u64 = (raw & 0xFFFF_FFF0) as u64;
    let addr: u64 = if bar_type == 0 {
        low
    } else if bar_type == 2 {
        if bar >= 5 {
            return None;
        }
        let raw_hi: u32 = bars[bar as usize + 1];
        proof {
            bits::lemma_join32(low as u32, raw_hi);
        }
        low | ((raw_hi as u64) << 32)
    } else {
        return None;
    };
    if addr == 0 {
        return None;
    }
    Some(addr)
}

/// Memory BAR `bar` is there, but its address is zero.
pub open spec fn zero_bar(bars: Seq<u32>, bar: int) -> bool {
    let raw = bars[bar];
    &&& bar <= 5
    &&& raw != 0
    &&& raw % 2 == 0
    &&& raw / 16 == 0
    &&& raw / 2 % 4 == 0 || (raw / 2 % 4 == 2 && bar < 5 && bars[bar + 1] == 0)
}

/// The line that goes with a BAR that is not used because its address is zero.
pub fn zero_bar_line(d: &PciDevice, bars: &[u32; 6], bar: u8) -> (line: Option<String>)
    ensures
        line is Some == zero_bar(bars@, bar as int),
        line matches Some(l) ==> l@ == "PCIe: BAR"@ + text::dec(bar as nat) + " at "@
            + text::pad_start(text::hex(d.bus as nat), 2, '0') + ":"@ + text::pad_start(
            text::hex(d.device as nat),
            2,
            '0',
        ) + "."@ + text::dec(d.function as nat) + " is zero, skipping"@,
{
    if bar > 5 {
        return None;
    }
    let raw: u32 = bars[bar as usize];
    if raw == 0 || raw % 2 != 0 || raw / 16 != 0 {
        return None;
    }
    let kind: u32 = raw / 2 % 4;
    if kind != 0 && (kind != 2 || bar >= 5 || bars[bar as usize + 1] != 0) {
        return None;
    }
    let mut line: String = "PCIe: BAR".to_owned();
    push_dec(&mut line, bar as u64);
    line.append(" at ");
    push_hex_padded(&mut line, d.bus as u64, 2);
    line.append(":");
    push_hex_padded(&mut line, d.device as u64, 2);
    line.append(".");
    push_dec(&mut line, d.function as u64);
    line.append(" is zero, skipping");
    Some(line)
}

/// A BAR with a zero address has no base.
pub proof fn lemma_zero_bar_has_no_base(bars: Seq<u32>, bar: int)
    requires
        zero_bar(bars, bar),
    ensures
        bar_base(bars, bar) is None,
{
}

/// The first recorded function of a vendor.
pub fn find_by_vendor(scan: &PciScan, vendor_id: u16) -> (r: Option<PciDevice>)
    ensures
        match r {
            Some(d) => exists|i: int|
                0 <= i < scan.devices@.len() && #[trigger] scan.devices@[i] == d && d.vendor_id
                    == vendor_id && forall|j: int|
                    0 <= j < i ==> (#[trigger] scan.devices@[j]).vendor_id != vendor_id,
            None => forall|j: int|
                0 <= j < scan.devices@.len() ==> (#[trigger] scan.devices@[j]).vendor_id
                    != vendor_id,
        },
{
    let mut i: usize = 0;
    while i < scan.devices.len()
        invariant
            i <= scan.devices@.len(),
            forall|j: int| 0 <= j < i ==> (#[trigger] scan.devices@[j]).vendor_id != vendor_id,
        decreases scan.devices@.len() - i,
    {
        let d: PciDevice = scan.devices[i];
        if d.vendor_id == vendor_id {
            assert(scan.devices@[i as int] == d);
            return Some(d);
        }
        i = i + 1;
    }
    None
}

pub open spec fn kind_label(d: PciDevice) -> Seq<char> {
    if d.vendor_id == VENDOR_NVIDIA && d.class_code == CLASS_DISPLAY {
        "NVIDIA-GPU"@
    } else if d.vendor_id == VENDOR_NVIDIA {
        "NVIDIA-OTHER"@
    } else if d.class_code == CLASS_DISPLAY {
        "DISPLAY"@
    } else {
        "device"@
    }
}

/// The report line of one function.
pub open spec fn device_line(d: PciDevice) -> Seq<char> {
    "  "@ + text::pad_start(text::hex(d.bus as nat), 2, '0') + ":"@ + text::pad_start(
        text::hex(d.device as nat),
        2,
        '0',
    ) + "."@ + text::dec(d.function as nat) + "  vendor=0x"@ + text::pad_start(
        text::hex(d.vendor_id as nat),
        4,
        '0',
    ) + " device=0x"@ + text::pad_start(text::hex(d.device_id as nat), 4, '0') + " class=0x"@
        + text::pad_start(text::hex(d.class_code as nat), 2, '0') + " subclass=0x"@
        + text::pad_start(text::hex(d.subclass as nat), 2, '0') + " ("@ + kind_label(d) + ")\n"@
}

/// The report lines of `ds`, in order.
pub open spec fn device_lines(ds: Seq<PciDevice>) -> Seq<char>
    decreases ds.len(),
{
    if ds.len() == 0 {
        Seq::empty()
    } else {
        device_lines(ds.drop_last()) + device_line(ds.last())
    }
}

pub open spec fn nvidia_line(n: nat) -> Seq<char> {
    if n > 0 {
        "PCIe: NVIDIA devices found = "@ + text::dec(n) + " (vendor 0x10DE)\n"@
    } else {
        "PCIe: no NVIDIA device found — Stage 12 HAL stays mock-only\n"@
    }
}

pub open spec fn report_text(ds: Seq<PciDevice>, max_bus: u16) -> Seq<char> {
    "PCIe: all-bus scan complete, "@ + text::dec(ds.len())
        + " function(s) responded (highest populated bus = 0x"@ + text::pad_start(
        text::hex(max_bus as nat),
        2,
        '0',
    ) + ")\n"@ + nvidia_line(ds.filter(|d: PciDevice| d.vendor_id == VENDOR_NVIDIA).len())
        + device_lines(ds)
}

fn push_device_line(out: &mut String, d: &PciDevice)
    ensures
        final(out)@ == old(out)@ + device_line(*d),
{
    let mut line: String = "  ".to_owned();
    push_hex_padded(&mut line, d.bus as u64, 2);
    line.append(":");
    push_hex_padded(&mut line, d.device as u64, 2);
    line.append(".");
    push_dec(&mut line, d.function as u64);
    line.append("  vendor=0x");
    push_hex_padded(&mut line, d.vendor_id as u64, 4);
    line.append(" device=0x");
    push_hex_padded(&mut line, d.device_id as u64, 4);
    line.append(" class=0x");
    push_hex_padded(&mut line, d.class_code as u64, 2);
    line.append(" subclass=0x");
    push_hex_padded(&mut line, d.subclass as u64, 2);
    line.append(" (");
    if d.is_nvidia() && d.is_display_controller() {
        line.append("NVIDIA-GPU");
    } else if d.is_nvidia() {
        line.append("NVIDIA-OTHER");
    } else if d.is_display_controller() {
        line.append("DISPLAY");
    } else {
        line.append("device");
    }
    line.append(")\n");
    out.append(line.as_str());
}

fn push_nvidia_line(out: &mut String, n: usize)
    ensures
        final(out)@ == old(out)@ + nvidia_line(n as nat),
{
    if n > 0 {
        let mut line: String = "PCIe: NVIDIA devices found = ".to_owned();
        push_dec(&mut line, n as u64);
        line.append(" (vendor 0x10DE)\n");
        out.append(line.as_str());
    } else {
        out.append("PCIe: no NVIDIA device found — Stage 12 HAL stays mock-only\n");
    }
}

/// A summary line and one line per recorded function.
pub fn report(scan: &PciScan) -> (out: String)
    ensures
        out@ == report_text(scan.devices@, scan.max_bus_seen),
{
    let mut out: String = "PCIe: all-bus scan complete, ".to_owned();
    push_dec(&mut out, scan.count() as u64);
    out.append(" function(s) responded (highest populated bus = 0x");
    push_hex_padded(&mut out, scan.max_bus_seen() as u64, 2);
    out.append(")\n");
    let nvidia: usize = scan.nvidia_count();
    push_nvidia_line(&mut out, nvidia);
    let ghost head = out@;
    let mut i: usize = 0;
    assert(out@ =~= head + device_lines(scan.devices@.take(0)));
    while i < scan.devices.len()
        invariant
            i <= scan.devices@.len(),
            out@ == head + device_lines(scan.devices@.take(i as int)),
        decreases scan.devices@.len() - i,
    {
        assert(scan.devices@.take(i + 1).drop_last() =~= scan.devices@.take(i as int));
        push_device_line(&mut out, &scan.devices[i]);
        i = i + 1;
        assert(out@ =~= head + device_lines(scan.devices@.take(i as int)));
    }
    assert(scan.devices@.take(i as int) =~= scan.devices@);
    out
}

} // verus!
