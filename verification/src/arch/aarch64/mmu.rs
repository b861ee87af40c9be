//! Translation tables: the low half mapped onto itself, and the high half where
//! the model is read.

use crate::text;
use crate::text::{push_dec, push_hex, push_hex_padded};
use vstd::prelude::*;

verus! {

/// A gibibyte of ordinary memory: valid, cached, shared, accessed.
pub const BLOCK_NORMAL: u64 = 0x701;

/// Two mebibytes of device registers: valid, second attribute, accessed.
pub const BLOCK_DEVICE: u64 = 0x409;

/// Valid, and points to a table.
pub const DESC_TABLE: u64 = 0x3;

/// Memory attributes: ordinary, strict device, device.
pub const MAIR_EL1_VALUE: u64 = 0x04_00FF;

/// Translation control: 48-bit addresses and 4 KiB pages in both halves, 40-bit
/// physical addresses.
pub const TCR_EL1_VALUE: u64 = 0x2_B510_3510;

/// Where the model is read.
pub const BOOT_LLM_VIRT_BASE: u64 = 0xFFFF_0000_4800_0000;

pub const MIB2: u64 = 0x20_0000;

pub const GIB: u64 = 0x4000_0000;

/// One level of translation.
pub struct PageTable(pub [u64; 512]);

impl PageTable {
    /// A table without entries.
    pub fn zeroed() -> (t: PageTable)
        ensures
            forall|i: int| 0 <= i < 512 ==> #[trigger] t.0@[i] == 0,
    {
        PageTable([0;512])
    }
}

/// Where the tables are in memory.
#[derive(Clone, Copy, Debug, PartialEq, Eq, Structural)]
pub struct TableAddrs {
    pub l0: u64,
    pub l1: u64,
    pub l2: u64,
    /// The top level of the high half.
    pub high_l0: u64,
}

impl TableAddrs {
    /// Pages of a 48-bit address space.
    pub open spec fn wf(self) -> bool {
        &&& self.l0 % 0x1000 == 0
        &&& self.l1 % 0x1000 == 0
        &&& self.l2 % 0x1000 == 0
        &&& self.l0 < 0x1_0000_0000_0000
        &&& self.l1 < 0x1_0000_0000_0000
        &&& self.l2 < 0x1_0000_0000_0000
        &&& self.high_l0 < 0x1_0000_0000_0000
    }
}

/// The low half.
pub struct LowTables {
    pub l0: PageTable,
    pub l1: PageTable,
    pub l2: PageTable,
}

/// What the tables hold.
#[verifier::ext_equal]
pub struct Levels {
    pub l0: Seq<u64>,
    pub l1: Seq<u64>,
    pub l2: Seq<u64>,
}

impl LowTables {
    pub open spec fn view(self) -> Levels {
        Levels { l0: self.l0.0@, l1: self.l1.0@, l2: self.l2.0@ }
    }
}

/// The block of two mebibytes that holds an address.
pub open spec fn block_of(addr: usize) -> int {
    addr as int / 0x20_0000
}

/// The low half for devices in the blocks `a`, `b` and `c`.
pub open spec fn low_levels(t: TableAddrs, a: int, b: int, c: int) -> Levels {
    Levels {
        l0: Seq::new(
            512,
            |i: int|
                if i == 0 {
                    (t.l1 + 3) as u64
                } else {
                    0
                },
        ),
        l1: Seq::new(
            512,
            |i: int|
                if i == 0 {
                    (t.l2 + 3) as u64
                } else if i == 1 || i == 2 {
                    (i * GIB + BLOCK_NORMAL) as u64
                } else {
                    0
                },
        ),
        l2: Seq::new(
            512,
            |i: int|
                if i == a || i == b || i == c {
                    (i * MIB2 + BLOCK_DEVICE) as u64
                } else {
                    0
                },
        ),
    }
}

/// The registers that turn the tables on.
#[derive(Clone, Copy, Debug, PartialEq, Eq, Structural)]
pub struct TableRegs {
    pub mair: u64,
    pub tcr: u64,
    pub ttbr0: u64,
    pub ttbr1: u64,
}

pub open spec fn device_line(gic_dist: usize, gic_cpu: usize, uart: usize) -> Seq<char> {
    "  L2 Device: GIC dist@idx="@ + text::dec(block_of(gic_dist) as nat) + ", cpu@idx="@
        + text::dec(block_of(gic_cpu) as nat) + ", UART+fwcfg@idx="@ + text::dec(
        block_of(uart) as nat,
    )
}

pub open spec fn tables_line(t: TableAddrs) -> Seq<char> {
    "  Tables: L0=0x"@ + text::hex(t.l0 as nat) + " L1=0x"@ + text::hex(t.l1 as nat) + " L2=0x"@
        + text::hex(t.l2 as nat)
}

/// The low half, with what turns it on and what is reported.
pub struct TablesInit {
    pub tables: LowTables,
    pub regs: TableRegs,
    pub device_line: String,
    pub tables_line: String,
}

/// Builds the low half: devices by their blocks, then two gibibytes of memory,
/// all mapped onto themselves.
pub fn init_tables(
    uart_base: usize,
    gic_dist_base: usize,
    gic_cpu_base: usize,
    t: &TableAddrs,
) -> (r: TablesInit)
    requires
        uart_base < GIB,
        gic_dist_base < GIB,
        gic_cpu_base < GIB,
        t.wf(),
    ensures
        r.tables@ == low_levels(
            *t,
            block_of(gic_dist_base),
            block_of(gic_cpu_base),
            block_of(uart_base),
        ),
        r.regs == (TableRegs {
            mair: MAIR_EL1_VALUE,
            tcr: TCR_EL1_VALUE,
            ttbr0: t.l0,
            ttbr1: t.high_l0,
        }),
        r.device_line@ == device_line(gic_dist_base, gic_cpu_base, uart_base),
        r.tables_line@ == tables_line(*t),
{
    let mut l0 = PageTable::zeroed();
    let mut l1 = PageTable::zeroed();
    let mut l2 = PageTable::zeroed();
    l0.0[0] = t.l1 + DESC_TABLE;
    l1.0[0] = t.l2 + DESC_TABLE;
    l1.0[1] = 0x4000_0000 + BLOCK_NORMAL;
    l1.0[2] = 0x8000_0000 + BLOCK_NORMAL;
    let dist: usize = gic_dist_base / 0x20_0000;
    l2.0[dist] = (gic_dist_base - gic_dist_base % 0x20_0000) as u64 + BLOCK_DEVICE;
    let cpu: usize = gic_cpu_base / 0x20_0000;
    if cpu != dist {
        l2.0[cpu] = (gic_cpu_base - gic_cpu_base % 0x20_0000) as u64 + BLOCK_DEVICE;
    }
    let uart: usize = uart_base / 0x20_0000;
    l2.0[uart] = (uart_base - uart_base % 0x20_0000) as u64 + BLOCK_DEVICE;
    let tables = LowTables { l0, l1, l2 };
    let ghost want = low_levels(*t, dist as int, cpu as int, uart as int);
    assert(tables@.l0 =~= want.l0);
    assert(tables@.l1 =~= want.l1);
    assert(tables@.l2 =~= want.l2);
    let mut device_line = "  L2 Device: GIC dist@idx=".to_owned();
    push_dec(&mut device_line, dist as u64);
    device_line.append(", cpu@idx=");
    push_dec(&mut device_line, cpu as u64);
    device_line.append(", UART+fwcfg@idx=");
    push_dec(&mut device_line, uart as u64);
    let mut tables_line = "  Tables: L0=0x".to_owned();
    push_hex(&mut tables_line, t.l0);
    tables_line.append(" L1=0x");
    push_hex(&mut tables_line, t.l1);
    tables_line.append(" L2=0x");
    push_hex(&mut tables_line, t.l2);
    TablesInit {
        tables,
        regs: TableRegs {
            mair: MAIR_EL1_VALUE,
            tcr: TCR_EL1_VALUE,
            ttbr0: t.l0,
            ttbr1: t.high_l0,
        },
        device_line,
        tables_line,
    }
}

// What the tables mean.

/// What an entry says.
pub enum Entry {
    Invalid,
    /// The address of the next level.
    Table(int),
    /// The address of a block, and its memory attribute.
    Block(int, int),
}

/// An entry of a level that has blocks of `size` bytes: bit zero makes it valid,
/// bit one a table; the attribute is in bits two to four.
pub open spec fn decode(e: u64, size: int) -> Entry {
    if e % 2 == 0 {
        Entry::Invalid
    } else if e / 2 % 2 == 1 {
        Entry::Table(e as int % 0x1_0000_0000_0000 / 0x1000 * 0x1000)
    } else {
        Entry::Block(e as int % 0x1_0000_0000_0000 / size * size, e as int / 4 % 8)
    }
}

/// The physical address and attribute of a 48-bit address, by the low tables.
pub open spec fn low_walk(t: TableAddrs, l: Levels, va: int) -> Option<(int, int)> {
    match decode(l.l0[va / 0x80_0000_0000 % 512], 0x80_0000_0000) {
        Entry::Table(p) => if p != t.l1 {
            None
        } else {
            match decode(l.l1[va / 0x4000_0000 % 512], 0x4000_0000) {
                Entry::Block(b, attr) => Some((b + va % 0x4000_0000, attr)),
                Entry::Table(q) => if q != t.l2 {
                    None
                } else {
                    match decode(l.l2[va / 0x20_0000 % 512], 0x20_0000) {
                        Entry::Block(b, attr) => Some((b + va % 0x20_0000, attr)),
                        _ => None,
                    }
                },
                Entry::Invalid => None,
            }
        },
        _ => None,
    }
}

proof fn lemma_block_entry(i: int, size: int, flags: int, attr: int)
    requires
        size == 0x20_0000 || size == 0x4000_0000,
        0 <= i < 512,
        flags == 0x701 && attr == 0 || flags == 0x409 && attr == 2,
    ensures
        0 <= i * size + flags < 0x1_0000_0000_0000,
        decode((i * size + flags) as u64, size) == Entry::Block(i * size, attr),
{
    let e = i * size + flags;
    if size == 0x20_0000 {
        assert(e / 0x20_0000 == i);
    } else {
        assert(e / 0x4000_0000 == i);
    }
}

proof fn lemma_table_entry(p: u64, size: int)
    requires
        p % 0x1000 == 0,
        p < 0x1_0000_0000_0000,
    ensures
        p + 3 <= u64::MAX,
        decode((p + 3) as u64, size) == Entry::Table(p as int),
{
}

/// The low half maps every address onto itself or not at all: as a device in the
/// blocks of the devices, as memory in the second and third gibibyte, and
/// nothing else.
pub proof fn lemma_low_identity(t: TableAddrs, a: int, b: int, c: int, va: int)
    requires
        t.wf(),
        0 <= a < 512,
        0 <= b < 512,
        0 <= c < 512,
        0 <= va < 0x1_0000_0000_0000,
    ensures
        low_walk(t, low_levels(t, a, b, c), va) == (if 0x4000_0000 <= va < 0xC000_0000 {
            Some((va, 0int))
        } else if va < 0x4000_0000 && (va / 0x20_0000 == a || va / 0x20_0000 == b || va / 0x20_0000
            == c) {
            Some((va, 2int))
        } else {
            None
        }),
{
    let l = low_levels(t, a, b, c);
    lemma_table_entry(t.l1, 0x80_0000_0000);
    lemma_table_entry(t.l2, 0x4000_0000);
    let i0 = va / 0x80_0000_0000 % 512;
    let i1 = va / 0x4000_0000 % 512;
    let i2 = va / 0x20_0000 % 512;
    if va >= 0x80_0000_0000 {
        assert(i0 == va / 0x80_0000_0000);
        assert(l.l0[i0] == 0);
    } else {
        assert(i0 == 0);
        assert(i1 == va / 0x4000_0000);
        if i1 == 1 || i1 == 2 {
            lemma_block_entry(i1, 0x4000_0000, 0x701, 0);
            assert(l.l1[i1] == (i1 * 0x4000_0000 + 0x701) as u64);
            assert(i1 * 0x4000_0000 + va % 0x4000_0000 == va);
        } else if i1 == 0 {
            assert(i2 == va / 0x20_0000);
            if i2 == a || i2 == b || i2 == c {
                lemma_block_entry(i2, 0x20_0000, 0x409, 2);
                assert(l.l2[i2] == (i2 * 0x20_0000 + 0x409) as u64);
                assert(i2 * 0x20_0000 + va % 0x20_0000 == va);
            } else {
                assert(l.l2[i2] == 0);
            }
        } else {
            assert(l.l1[i1] == 0);
        }
    }
}

/// Every device register stays where it is once translation is on.
pub proof fn lemma_devices_reachable(t: TableAddrs, uart: usize, dist: usize, cpu: usize, at: usize)
    requires
        t.wf(),
        uart < GIB,
        dist < GIB,
        cpu < GIB,
        at == uart || at == dist || at == cpu,
    ensures
        low_walk(t, low_levels(t, block_of(dist), block_of(cpu), block_of(uart)), at as int)
            == Some((at as int, 2int)),
{
    lemma_low_identity(t, block_of(dist), block_of(cpu), block_of(uart), at as int);
}

/// The control register with translation and both caches on.
pub fn enable_mmu(sctlr: u64) -> (v: u64)
    ensures
        v == sctlr | 0x1005,
        v & 0x1005 == 0x1005,
        v & !0x1005u64 == sctlr & !0x1005u64,
{
    let v: u64 = sctlr | 0x1005;
    assert(v & 0x1005 == 0x1005 && v & !0x1005u64 == sctlr & !0x1005u64) by (bit_vector)
        requires
            v == sctlr | 0x1005,
    ;
    v
}

// The high half.

/// The high half.
pub struct HighTables {
    pub l0: PageTable,
    pub l1: PageTable,
}

/// The high half with its second level at `l1`.
pub open spec fn high_levels(l1: u64) -> (Seq<u64>, Seq<u64>) {
    (
        Seq::new(
            512,
            |i: int|
                if i == 0 {
                    (l1 + 3) as u64
                } else {
                    0
                },
        ),
        Seq::new(
            512,
            |i: int|
                if i == 1 || i == 2 {
                    (i * GIB + BLOCK_NORMAL) as u64
                } else {
                    0
                },
        ),
    )
}

/// Maps the second and third gibibyte of memory into the high half.
pub fn map_initrd_high_half(l1_addr: u64) -> (r: (HighTables, String))
    requires
        l1_addr % 0x1000 == 0,
        l1_addr < 0x1_0000_0000_0000,
    ensures
        (r.0.l0.0@, r.0.l1.0@) == high_levels(l1_addr),
        r.1@ == "  BOOT_LLM_VIRT_BASE = 0x"@ + text::hex(BOOT_LLM_VIRT_BASE as nat)
            + " (physical 0x48000000)"@,
{
    let mut l0 = PageTable::zeroed();
    let mut l1 = PageTable::zeroed();
    l0.0[0] = l1_addr + DESC_TABLE;
    l1.0[1] = 0x4000_0000 + BLOCK_NORMAL;
    l1.0[2] = 0x8000_0000 + BLOCK_NORMAL;
    assert(l0.0@ =~= high_levels(l1_addr).0);
    assert(l1.0@ =~= high_levels(l1_addr).1);
    let mut line = "  BOOT_LLM_VIRT_BASE = 0x".to_owned();
    push_hex(&mut line, BOOT_LLM_VIRT_BASE);
    line.append(" (physical 0x48000000)");
    (HighTables { l0, l1 }, line)
}

/// The physical address and attribute of a high address, by its lower 48 bits.
pub open spec fn high_walk(l1_addr: u64, l: (Seq<u64>, Seq<u64>), va: int) -> Option<(int, int)> {
    let low = va % 0x1_0000_0000_0000;
    match decode(l.0[low / 0x80_0000_0000 % 512], 0x80_0000_0000) {
        Entry::Table(p) => if p != l1_addr {
            None
        } else {
            match decode(l.1[low / 0x4000_0000 % 512], 0x4000_0000) {
                Entry::Block(b, attr) => Some((b + low % 0x4000_0000, attr)),
                _ => None,
            }
        },
        _ => None,
    }
}

/// The high half maps `0xFFFF_0000_0000_0000 + x` to `x`, for `x` in the second
/// and third gibibyte, and nothing else.
pub proof fn lemma_high_half(l1_addr: u64, x: int)
    requires
        l1_addr % 0x1000 == 0,
        l1_addr < 0x1_0000_0000_0000,
        0 <= x < 0x1_0000_0000_0000,
    ensures
        high_walk(l1_addr, high_levels(l1_addr), 0xFFFF_0000_0000_0000 + x) == (if 0x4000_0000 <= x
            < 0xC000_0000 {
            Some((x, 0int))
        } else {
            None
        }),
{
    let l = high_levels(l1_addr);
    lemma_table_entry(l1_addr, 0x80_0000_0000);
    assert((0xFFFF_0000_0000_0000 + x) % 0x1_0000_0000_0000 == x);
    let i0 = x / 0x80_0000_0000 % 512;
    let i1 = x / 0x4000_0000 % 512;
    if x >= 0x80_0000_0000 {
        assert(i0 == x / 0x80_0000_0000);
        assert(l.0[i0] == 0);
    } else {
        assert(i0 == 0);
        assert(i1 == x / 0x4000_0000);
        if i1 == 1 || i1 == 2 {
            lemma_block_entry(i1, 0x4000_0000, 0x701, 0);
            assert(l.1[i1] == (i1 * 0x4000_0000 + 0x701) as u64);
        } else {
            assert(l.1[i1] == 0);
        }
    }
}

/// The model is read from physical 0x4800_0000.
pub proof fn lemma_model_address(l1_addr: u64)
    requires
        l1_addr % 0x1000 == 0,
        l1_addr < 0x1_0000_0000_0000,
    ensures
        high_walk(l1_addr, high_levels(l1_addr), BOOT_LLM_VIRT_BASE as int) == Some(
            (0x4800_0000int, 0int),
        ),
{
    lemma_high_half(l1_addr, 0x4800_0000);
}

/// "GGUF".
pub open spec fn is_gguf(b: Seq<u8>) -> bool {
    b[0] == 0x47 && b[1] == 0x47 && b[2] == 0x55 && b[3] == 0x46
}

/// "SILM".
pub open spec fn is_smodel(b: Seq<u8>) -> bool {
    b[0] == 0x53 && b[1] == 0x49 && b[2] == 0x4C && b[3] == 0x4D
}

pub open spec fn hex4(b: u8) -> Seq<char> {
    "0x"@ + text::pad_start(text::hex(b as nat), 2, '0')
}

pub open spec fn bytes_line(b: Seq<u8>) -> Seq<char> {
    "  Bytes at 0x"@ + text::hex(BOOT_LLM_VIRT_BASE as nat) + ": "@ + hex4(b[0]) + " "@ + hex4(
        b[1],
    ) + " "@ + hex4(b[2]) + " "@ + hex4(b[3])
}

fn push_hex4(out: &mut String, b: u8)
    ensures
        final(out)@ == old(out)@ + hex4(b),
{
    let mut word = "0x".to_owned();
    push_hex_padded(&mut word, b as u64, 2);
    out.append(word.as_str());
}

/// Whether the first four bytes of the model name a container that is known,
/// and the two lines that report it.
pub fn verify_model_at_virt(b: &[u8; 4]) -> (r: (bool, String, &'static str))
    ensures
        r.0 == (is_gguf(b@) || is_smodel(b@)),
        r.1@ == bytes_line(b@),
        r.2@ == (if is_gguf(b@) {
            "  GGUF magic VERIFIED at virtual address"@
        } else if is_smodel(b@) {
            "  .smodel magic VERIFIED at virtual address"@
        } else {
            "  model magic NOT FOUND (expected GGUF or SILM)"@
        }),
{
    let mut line = "  Bytes at 0x".to_owned();
    push_hex(&mut line, BOOT_LLM_VIRT_BASE);
    line.append(": ");
    push_hex4(&mut line, b[0]);
    line.append(" ");
    push_hex4(&mut line, b[1]);
    line.append(" ");
    push_hex4(&mut line, b[2]);
    line.append(" ");
    push_hex4(&mut line, b[3]);
    let gguf: bool = b[0] == 0x47 && b[1] == 0x47 && b[2] == 0x55 && b[3] == 0x46;
    let smodel: bool = b[0] == 0x53 && b[1] == 0x49 && b[2] == 0x4C && b[3] == 0x4D;
    let verdict: &'static str = if gguf {
        "  GGUF magic VERIFIED at virtual address"
    } else if smodel {
        "  .smodel magic VERIFIED at virtual address"
    } else {
        "  model magic NOT FOUND (expected GGUF or SILM)"
    };
    (gguf || smodel, line, verdict)
}

} // verus!
