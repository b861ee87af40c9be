//! The segment table of the kernel, and the stack for double faults.

use vstd::prelude::*;

verus! {

/// Entry of the interrupt stack table that holds the double-fault stack.
pub const DOUBLE_FAULT_IST_INDEX: u16 = 0;

/// Bytes of the double-fault stack.
pub const DOUBLE_FAULT_STACK_SIZE: u64 = 20_480;

/// Entries that the table has room for, the empty one at the start counted.
pub const GDT_ROOM: usize = 8;

/// The 64-bit code segment of the kernel: flat, present, privileged.
pub const KERNEL_CODE: u64 = 0x00AF_9B00_0000_FFFF;

/// The data segment of the kernel.
pub const KERNEL_DATA: u64 = 0x00CF_9300_0000_FFFF;

/// `x86_64::structures::gdt::GlobalDescriptorTable`.
#[verifier::external_type_specification]
#[verifier::external_body]
pub struct ExGlobalDescriptorTable<const MAX: usize>(
    ::x86_64::structures::gdt::GlobalDescriptorTable<MAX>,
);

/// The entries of a table in order, the empty one at the start among them.
pub uninterp spec fn gdt_entries(table: ::x86_64::structures::gdt::GlobalDescriptorTable) -> Seq<
    u64,
>;

/// Privilege level in the low word of a descriptor.
pub open spec fn level(low: u64) -> int {
    low as int / 0x2000_0000_0000 % 4
}

/// `GlobalDescriptorTable::new`: a new table holds the empty entry alone.
#[verifier::external_body]
fn new_table() -> (table: ::x86_64::structures::gdt::GlobalDescriptorTable)
    ensures
        gdt_entries(table) == seq![0u64],
{
    ::x86_64::structures::gdt::GlobalDescriptorTable::new()
}

/// `GlobalDescriptorTable::append`: a descriptor of one or two words goes to the
/// end, and its selector is eight times its place plus its privilege level. The
/// call panics where the table has no room.
#[verifier::external_body]
fn append_descriptor(
    table: &mut ::x86_64::structures::gdt::GlobalDescriptorTable,
    low: u64,
    high: Option<u64>,
) -> (s: u16)
    requires
        gdt_entries(*old(table)).len() + (if high is Some {
            2int
        } else {
            1
        }) <= GDT_ROOM,
    ensures
        gdt_entries(*final(table)) == gdt_entries(*old(table)) + (match high {
            Some(h) => seq![low, h],
            None => seq![low],
        }),
        s == gdt_entries(*old(table)).len() * 8 + level(low),
{
    let entry = match high {
        Some(h) => ::x86_64::structures::gdt::Descriptor::SystemSegment(low, h),
        None => ::x86_64::structures::gdt::Descriptor::UserSegment(low),
    };
    table.append(entry).0
}

/// `Descriptor::kernel_code_segment`: a flat 64-bit code segment.
#[verifier::external_body]
fn kernel_code_segment() -> (low: u64)
    ensures
        low == KERNEL_CODE,
{
    match ::x86_64::structures::gdt::Descriptor::kernel_code_segment() {
        ::x86_64::structures::gdt::Descriptor::UserSegment(low) => low,
        ::x86_64::structures::gdt::Descriptor::SystemSegment(low, _) => low,
    }
}

/// `Descriptor::kernel_data_segment`: a flat data segment.
#[verifier::external_body]
fn kernel_data_segment() -> (low: u64)
    ensures
        low == KERNEL_DATA,
{
    match ::x86_64::structures::gdt::Descriptor::kernel_data_segment() {
        ::x86_64::structures::gdt::Descriptor::UserSegment(low) => low,
        ::x86_64::structures::gdt::Descriptor::SystemSegment(low, _) => low,
    }
}

/// The table with the selectors of its segments.
pub struct KernelGdt {
    pub table: ::x86_64::structures::gdt::GlobalDescriptorTable,
    pub code_selector: u16,
    pub data_selector: u16,
    pub tss_selector: u16,
}

/// The entry that a selector names.
pub open spec fn named(entries: Seq<u64>, selector: u16) -> u64 {
    entries[selector as int / 8]
}

/// The table of the kernel: code, data, and the task state segment whose
/// descriptor is `tss_low` and `tss_high`.
pub fn kernel_gdt(tss_low: u64, tss_high: u64) -> (g: KernelGdt)
    ensures
        gdt_entries(g.table) == seq![0u64, KERNEL_CODE, KERNEL_DATA, tss_low, tss_high],
        g.code_selector == 0x08,
        g.data_selector == 0x10,
        g.tss_selector == 0x18 + level(tss_low),
        named(gdt_entries(g.table), g.code_selector) == KERNEL_CODE,
        named(gdt_entries(g.table), g.data_selector) == KERNEL_DATA,
        named(gdt_entries(g.table), g.tss_selector) == tss_low,
{
    let mut table = new_table();
    let code_selector: u16 = append_descriptor(&mut table, kernel_code_segment(), None);
    let data_selector: u16 = append_descriptor(&mut table, kernel_data_segment(), None);
    let tss_selector: u16 = append_descriptor(&mut table, tss_low, Some(tss_high));
    assert(gdt_entries(table) =~= seq![0u64, KERNEL_CODE, KERNEL_DATA, tss_low, tss_high]);
    KernelGdt { table, code_selector, data_selector, tss_selector }
}

/// A register that is loaded.
#[derive(Clone, Copy, Debug, PartialEq, Eq, Structural)]
pub enum SegmentLoad {
    /// The table itself.
    Table,
    Cs(u16),
    Ss(u16),
    Ds(u16),
    Es(u16),
    /// The task register.
    Task(u16),
}

/// Loads the table and every segment register, so that no selector of an earlier
/// table stays behind.
pub fn init(g: &KernelGdt) -> (loads: Vec<SegmentLoad>)
    ensures
        loads@ == seq![
            SegmentLoad::Table,
            SegmentLoad::Cs(g.code_selector),
            SegmentLoad::Ss(g.data_selector),
            SegmentLoad::Ds(g.data_selector),
            SegmentLoad::Es(g.data_selector),
            SegmentLoad::Task(g.tss_selector),
        ],
{
    let loads: Vec<SegmentLoad> = vec![
        SegmentLoad::Table,
        SegmentLoad::Cs(g.code_selector),
        SegmentLoad::Ss(g.data_selector),
        SegmentLoad::Ds(g.data_selector),
        SegmentLoad::Es(g.data_selector),
        SegmentLoad::Task(g.tss_selector),
    ];
    loads
}

/// The address from which the double-fault stack at `bottom` grows down.
pub fn double_fault_stack_top(bottom: u64) -> (top: u64)
    requires
        bottom + DOUBLE_FAULT_STACK_SIZE <= u64::MAX,
    ensures
        top == bottom + DOUBLE_FAULT_STACK_SIZE,
{
    bottom + DOUBLE_FAULT_STACK_SIZE
}

} // verus!
