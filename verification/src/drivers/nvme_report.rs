//! The lines that the drive driver puts on the serial line.

use crate::arch::x86_64::pcie::PciDevice;
use crate::drivers::nvme;
use crate::drivers::nvme::{
    doorbell_end, Capabilities, ModelDiskMagic, NamespaceInfo, NvmeError, BAR0_MMIO_BYTES, IO_QID,
    NVME_PAGE_SIZE,
};
use crate::text;
use crate::text::{push_dec, push_hex, push_hex_padded};
use vstd::prelude::*;

verus! {

/// Bus, device and function.
pub open spec fn place_text(d: PciDevice) -> Seq<char> {
    text::pad_start(text::hex(d.bus as nat), 2, '0') + ":"@ + text::pad_start(
        text::hex(d.device as nat),
        2,
        '0',
    ) + "."@ + text::dec(d.function as nat)
}

fn push_place(out: &mut String, d: &PciDevice)
    ensures
        final(out)@ == old(out)@ + place_text(*d),
{
    push_hex_padded(out, d.bus as u64, 2);
    out.append(":");
    push_hex_padded(out, d.device as u64, 2);
    out.append(".");
    push_dec(out, d.function as u64);
    assert(out@ =~= old(out)@ + place_text(*d));
}

/// The name of an error, with the status of a failed command.
pub open spec fn error_text(e: NvmeError) -> Seq<char> {
    match e {
        NvmeError::ControllerNotFound => "ControllerNotFound"@,
        NvmeError::Bar0Invalid => "Bar0Invalid"@,
        NvmeError::MmioMapFailed => "MmioMapFailed"@,
        NvmeError::UnsupportedPageSize => "UnsupportedPageSize"@,
        NvmeError::ControllerEnableTimeout => "ControllerEnableTimeout"@,
        NvmeError::ControllerDisableTimeout => "ControllerDisableTimeout"@,
        NvmeError::ControllerFatal => "ControllerFatal"@,
        NvmeError::CommandFailed { status } => "CommandFailed { status: "@ + text::dec(
            status as nat,
        ) + " }"@,
        NvmeError::CommandTimeout => "CommandTimeout"@,
        NvmeError::OutOfRange => "OutOfRange"@,
        NvmeError::OutOfMemory => "OutOfMemory"@,
        NvmeError::BadDmaBuffer => "BadDmaBuffer"@,
        NvmeError::BadIdentify => "BadIdentify"@,
    }
}

fn push_error(out: &mut String, e: NvmeError)
    ensures
        final(out)@ == old(out)@ + error_text(e),
{
    match e {
        NvmeError::ControllerNotFound => out.append("ControllerNotFound"),
        NvmeError::Bar0Invalid => out.append("Bar0Invalid"),
        NvmeError::MmioMapFailed => out.append("MmioMapFailed"),
        NvmeError::UnsupportedPageSize => out.append("UnsupportedPageSize"),
        NvmeError::ControllerEnableTimeout => out.append("ControllerEnableTimeout"),
        NvmeError::ControllerDisableTimeout => out.append("ControllerDisableTimeout"),
        NvmeError::ControllerFatal => out.append("ControllerFatal"),
        NvmeError::CommandFailed { status } => {
            out.append("CommandFailed { status: ");
            push_dec(out, status as u64);
            out.append(" }");
        },
        NvmeError::CommandTimeout => out.append("CommandTimeout"),
        NvmeError::OutOfRange => out.append("OutOfRange"),
        NvmeError::OutOfMemory => out.append("OutOfMemory"),
        NvmeError::BadDmaBuffer => out.append("BadDmaBuffer"),
        NvmeError::BadIdentify => out.append("BadIdentify"),
    }
    assert(out@ =~= old(out)@ + error_text(e));
}

/// Blocks, block size and whole mebibytes of a namespace.
pub open spec fn size_text(ns: NamespaceInfo) -> Seq<char> {
    text::dec(ns.nlba as nat) + " LBAs × "@ + text::dec(ns.lba_size as nat) + " B = "@ + text::dec(
        (nvme::capacity(ns.nlba, ns.lba_size) / 0x10_0000) as nat,
    ) + " MiB"@
}

fn push_size(out: &mut String, ns: &NamespaceInfo)
    ensures
        final(out)@ == old(out)@ + size_text(*ns),
{
    let bytes: u64 = match ns.nlba.checked_mul(ns.lba_size as u64) {
        Some(n) => n,
        None => u64::MAX,
    };
    push_dec(out, ns.nlba);
    out.append(" LBAs × ");
    push_dec(out, ns.lba_size as u64);
    out.append(" B = ");
    push_dec(out, bytes / 0x10_0000);
    out.append(" MiB");
    assert(out@ =~= old(out)@ + size_text(*ns));
}

/// The line before a controller is brought up.
pub fn scanning_line(d: &PciDevice) -> (line: String)
    ensures
        line@ == "NVMe probe: scanning "@ + place_text(*d) + " vendor=0x"@ + text::pad_start(
            text::hex(d.vendor_id as nat),
            4,
            '0',
        ) + " device=0x"@ + text::pad_start(text::hex(d.device_id as nat), 4, '0'),
{
    let mut line: String = "NVMe probe: scanning ".to_owned();
    push_place(&mut line, d);
    line.append(" vendor=0x");
    push_hex_padded(&mut line, d.vendor_id as u64, 4);
    line.append(" device=0x");
    push_hex_padded(&mut line, d.device_id as u64, 4);
    line
}

/// The line when bring-up of a controller is over: its size, or what failed.
pub fn bound_line(d: &PciDevice, bound: &Result<NamespaceInfo, NvmeError>) -> (line: String)
    ensures
        line@ == "NVMe probe: "@ + place_text(*d) + (match *bound {
            Ok(ns) => " = "@ + size_text(ns),
            Err(e) => " bind FAILED: "@ + error_text(e),
        }),
{
    let mut line: String = "NVMe probe: ".to_owned();
    push_place(&mut line, d);
    match bound {
        Ok(ns) => {
            line.append(" = ");
            push_size(&mut line, ns);
        },
        Err(e) => {
            line.append(" bind FAILED: ");
            push_error(&mut line, *e);
        },
    }
    assert(line@ =~= "NVMe probe: "@ + place_text(*d) + (match *bound {
        Ok(ns) => " = "@ + size_text(ns),
        Err(e) => " bind FAILED: "@ + error_text(e),
    }));
    line
}

/// What the probe of a drive's first block gave.
pub open spec fn marker_text(magic: Result<ModelDiskMagic, NvmeError>) -> Seq<char> {
    match magic {
        Ok(ModelDiskMagic::Gguf) => " GGUF marker FOUND at LBA 0 — selecting as model drive"@,
        Ok(ModelDiskMagic::Smodel) => " SILM marker FOUND at LBA 0 — selecting as model drive"@,
        Ok(ModelDiskMagic::Other) =>
        " no supported model marker at LBA 0 (saw unknown) — likely boot drive, skipping"@,
        Err(e) => " model-marker probe read failed: "@ + error_text(e),
    }
}

/// The line when the first block of a drive was probed.
pub fn marker_line(d: &PciDevice, magic: &Result<ModelDiskMagic, NvmeError>) -> (line: String)
    ensures
        line@ == "NVMe probe: "@ + place_text(*d) + marker_text(*magic),
{
    let mut line: String = "NVMe probe: ".to_owned();
    push_place(&mut line, d);
    match magic {
        Ok(ModelDiskMagic::Gguf) => line.append(
            " GGUF marker FOUND at LBA 0 — selecting as model drive",
        ),
        Ok(ModelDiskMagic::Smodel) => line.append(
            " SILM marker FOUND at LBA 0 — selecting as model drive",
        ),
        Ok(ModelDiskMagic::Other) => line.append(
            " no supported model marker at LBA 0 (saw unknown) — likely boot drive, skipping",
        ),
        Err(e) => {
            line.append(" model-marker probe read failed: ");
            push_error(&mut line, *e);
        },
    }
    assert(line@ =~= "NVMe probe: "@ + place_text(*d) + marker_text(*magic));
    line
}

/// What a controller says of itself, for [`capability_line`].
#[derive(Clone, Copy, Debug, PartialEq, Eq, Structural)]
pub struct CapabilityReport {
    pub bar0_phys: u64,
    pub cap_raw: u64,
    pub mqes: u16,
    pub dstrd: u8,
    pub mpsmin: u8,
    pub enable_timeout_ms: u32,
}

/// The line when the capabilities of a controller are known.
pub fn capability_line(d: &PciDevice, c: &CapabilityReport) -> (line: String)
    ensures
        line@ == "NVMe: bind "@ + place_text(*d) + " BAR0=0x"@ + text::hex(c.bar0_phys as nat)
            + " CAP=0x"@ + text::pad_start(text::hex(c.cap_raw as nat), 16, '0') + " (mqes="@
            + text::dec(c.mqes as nat) + ", dstrd="@ + text::dec(c.dstrd as nat) + ", mpsmin="@
            + text::dec(c.mpsmin as nat) + ", to="@ + text::dec(c.enable_timeout_ms as nat)
            + "ms)"@,
{
    let mut line: String = "NVMe: bind ".to_owned();
    push_place(&mut line, d);
    line.append(" BAR0=0x");
    push_hex(&mut line, c.bar0_phys);
    line.append(" CAP=0x");
    push_hex_padded(&mut line, c.cap_raw, 16);
    line.append(" (mqes=");
    push_dec(&mut line, c.mqes as u64);
    line.append(", dstrd=");
    push_dec(&mut line, c.dstrd as u64);
    line.append(", mpsmin=");
    push_dec(&mut line, c.mpsmin as u64);
    line.append(", to=");
    push_dec(&mut line, c.enable_timeout_ms as u64);
    line.append("ms)");
    line
}

pub open spec fn doorbell_text(dstrd: u8) -> Seq<char> {
    "NVMe: BAR0 map (524288 B) too small for DSTRD="@ + text::dec(dstrd as nat)
        + " doorbell at offset 0x"@ + text::hex(
        (nvme::cq_doorbell(IO_QID as int, dstrd as nat) + 4) as nat,
    )
}

/// The line when the pages of a controller are small enough and its last doorbell
/// lies behind the mapped registers.
pub fn doorbell_line(cap: &Capabilities) -> (line: Option<String>)
    requires
        cap.dstrd < 60,
    ensures
        line is Some == (cap.min_page_size <= NVME_PAGE_SIZE && nvme::cq_doorbell(
            IO_QID as int,
            cap.dstrd as nat,
        ) + 4 > BAR0_MMIO_BYTES),
        line matches Some(l) ==> l@ == doorbell_text(cap.dstrd),
{
    let end: u64 = doorbell_end(cap.dstrd);
    if cap.min_page_size > NVME_PAGE_SIZE as u64 || end <= BAR0_MMIO_BYTES as u64 {
        return None;
    }
    let mut line: String = "NVMe: BAR0 map (524288 B) too small for DSTRD=".to_owned();
    push_dec(&mut line, cap.dstrd as u64);
    line.append(" doorbell at offset 0x");
    push_hex(&mut line, end);
    Some(line)
}

/// The line when the namespace of a controller is known.
pub fn namespace_line(ns: &NamespaceInfo) -> (line: String)
    ensures
        line@ == "NVMe: namespace "@ + text::dec(ns.nsid as nat) + " → "@ + size_text(*ns),
{
    let mut line: String = "NVMe: namespace ".to_owned();
    push_dec(&mut line, ns.nsid as u64);
    line.append(" → ");
    push_size(&mut line, ns);
    line
}

} // verus!
