//! The frame buffer of the virtual machine, set up through its configuration
//! device.

use crate::bytes;
use crate::bytes::{push_be32, push_be64, u32_be};
use crate::text;
use crate::text::{push_dec, push_hex, push_hex_padded};
use vstd::prelude::*;

verus! {

/// The device's registers.
pub const FWCFG_DATA: usize = 0x0902_0000;

pub const FWCFG_SEL: usize = 0x0902_0008;

pub const FWCFG_DMA: usize = 0x0902_0010;

/// The directory of the device's files.
pub const FWCFG_FILE_DIR: u16 = 0x0019;

pub const FWCFG_DMA_CTL_ERROR: u32 = 0x01;

pub const FWCFG_DMA_CTL_SELECT: u32 = 0x08;

pub const FWCFG_DMA_CTL_WRITE: u32 = 0x10;

/// Four bytes for a pixel: blue, green, red, unused.
pub const DRM_FORMAT_XRGB8888: u32 = 0x3432_5258;

pub const FB_WIDTH: usize = 1024;

pub const FB_HEIGHT: usize = 768;

pub const FB_BPP: usize = 32;

pub const FB_STRIDE: usize = 4096;

pub const FB_SIZE: usize = 3_145_728;

pub const FB_PHYS_ADDR: usize = 0x9500_0000;

/// Bytes of a directory entry.
pub const DIR_ENTRY_LEN: usize = 64;

/// Most often the control word is read.
pub const MAX_POLLS: u32 = 1_000_000;

/// The sizes fit together.
pub proof fn lemma_frame_sizes()
    ensures
        FB_STRIDE == FB_WIDTH * (FB_BPP / 8),
        FB_SIZE == FB_STRIDE * FB_HEIGHT,
        FB_PHYS_ADDR + FB_SIZE <= 0xC000_0000,
{
}

/// A directory entry names the file: the name, then a zero unless it fills the
/// room of 56 bytes.
pub open spec fn names_file(e: Seq<u8>, name: Seq<u8>) -> bool {
    &&& name.len() <= 56
    &&& forall|j: int| 0 <= j < name.len() ==> #[trigger] e[8 + j] == name[j]
    &&& name.len() < 56 ==> e[8 + name.len() as int] == 0
}

/// The selector of the file, if the entry names it.
pub fn entry_selector(e: &[u8], name: &[u8]) -> (sel: Option<u16>)
    requires
        e@.len() == 64,
    ensures
        sel == (if names_file(e@, name@) {
            Some(bytes::be16(e@, 4) as u16)
        } else {
            None
        }),
{
    let mut j: usize = 0;
    while j < name.len()
        invariant
            j <= name@.len(),
            j <= 56,
            e@.len() == 64,
            forall|k: int| 0 <= k < j ==> #[trigger] e@[8 + k] == name@[k],
        decreases name@.len() - j,
    {
        if j >= 56 || e[8 + j] != name[j] {
            return None;
        }
        j = j + 1;
    }
    if name.len() >= 56 || e[8 + name.len()] == 0 {
        Some(e[4] as u16 * 0x100 + e[5] as u16)
    } else {
        None
    }
}

/// Entry `i` of a directory.
pub open spec fn dir_entry(dir: Seq<u8>, i: int) -> Seq<u8> {
    dir.subrange(4 + 64 * i, 4 + 64 * i + 64)
}

/// Entries of a directory.
pub open spec fn dir_count(dir: Seq<u8>) -> int {
    bytes::be32(dir, 0)
}

/// The selector of the first entry from `i` on that names the file.
pub open spec fn selector_from(dir: Seq<u8>, name: Seq<u8>, i: int) -> Option<u16>
    decreases dir_count(dir) - i,
{
    if i >= dir_count(dir) {
        None
    } else if names_file(dir_entry(dir, i), name) {
        Some(bytes::be16(dir_entry(dir, i), 4) as u16)
    } else {
        selector_from(dir, name, i + 1)
    }
}

/// A file of the directory.
pub struct FwFile {
    pub size: u32,
    pub selector: u16,
    pub name: Seq<u8>,
}

/// A name that a directory entry can hold.
pub open spec fn is_name(name: Seq<u8>) -> bool {
    name.len() <= 56 && forall|i: int| 0 <= i < name.len() ==> #[trigger] name[i] != 0
}

/// An entry as it is laid out: size and selector, most significant bytes first, two
/// unused bytes, and the name with zeros behind it.
pub open spec fn file_bytes(f: FwFile) -> Seq<u8> {
    bytes::be32_bytes(f.size as int) + seq![
        (f.selector as int / 256) as u8,
        (f.selector as int % 256) as u8,
        0u8,
        0u8,
    ] + Seq::new(
        56,
        |i: int|
            if i < f.name.len() {
                f.name[i]
            } else {
                0
            },
    )
}

/// A directory of the files: their number, and an entry for each.
pub open spec fn is_directory(dir: Seq<u8>, files: Seq<FwFile>) -> bool {
    &&& files.len() <= u32::MAX
    &&& dir.len() >= 4 + 64 * files.len()
    &&& dir.take(4) == bytes::be32_bytes(files.len() as int)
    &&& forall|i: int|
        0 <= i < files.len() ==> is_name((#[trigger] files[i]).name) && dir.subrange(
            4 + 64 * i,
            68 + 64 * i,
        ) == file_bytes(files[i])
}

proof fn lemma_entry_names(e: Seq<u8>, f: FwFile, name: Seq<u8>)
    requires
        e == file_bytes(f),
        is_name(f.name),
        is_name(name),
    ensures
        names_file(e, name) == (f.name == name),
        bytes::be16(e, 4) == f.selector,
{
    let n = Seq::new(
        56,
        |i: int|
            if i < f.name.len() {
                f.name[i]
            } else {
                0u8
            },
    );
    assert(bytes::be32_bytes(f.size as int).len() == 4);
    assert forall|j: int| 0 <= j < 56 implies #[trigger] e[8 + j] == n[j] by {}
    assert(e[4] == (f.selector as int / 256) as u8 && e[5] == (f.selector as int % 256) as u8);
    if names_file(e, name) {
        if name.len() < f.name.len() {
            assert(e[8 + name.len() as int] == f.name[name.len() as int]);
        } else if f.name.len() < name.len() {
            assert(e[8 + f.name.len() as int] == 0);
            assert(name[f.name.len() as int] != 0);
        }
        assert forall|j: int| 0 <= j < name.len() implies name[j] == f.name[j] by {
            assert(e[8 + j] == name[j]);
        }
        assert(name =~= f.name);
    }
    if f.name == name {
        assert forall|j: int| 0 <= j < name.len() implies #[trigger] e[8 + j] == name[j] by {
            assert(n[j] == f.name[j]);
        }
        if name.len() < 56 {
            assert(e[8 + name.len() as int] == n[name.len() as int]);
        }
    }
}

proof fn lemma_found_from(dir: Seq<u8>, files: Seq<FwFile>, name: Seq<u8>, i: int)
    requires
        is_directory(dir, files),
        is_name(name),
        0 <= i <= files.len(),
        dir_count(dir) == files.len(),
    ensures
        match selector_from(dir, name, i) {
            Some(x) => exists|k: int|
                i <= k < files.len() && (#[trigger] files[k]).name == name && files[k].selector == x
                    && forall|j: int| i <= j < k ==> (#[trigger] files[j]).name != name,
            None => forall|j: int| i <= j < files.len() ==> (#[trigger] files[j]).name != name,
        },
    decreases files.len() - i,
{
    if i < files.len() {
        let f = files[i];
        assert(dir_entry(dir, i) =~= dir.subrange(4 + 64 * i, 68 + 64 * i));
        lemma_entry_names(dir_entry(dir, i), f, name);
        if f.name != name {
            lemma_found_from(dir, files, name, i + 1);
        }
    }
}

/// Looking a file up gives the selector of the first file of that name, and nothing only
/// where no file has it.
pub proof fn lemma_file_found(dir: Seq<u8>, files: Seq<FwFile>, name: Seq<u8>)
    requires
        is_directory(dir, files),
        is_name(name),
    ensures
        match selector_from(dir, name, 0) {
            Some(x) => exists|k: int|
                0 <= k < files.len() && (#[trigger] files[k]).name == name && files[k].selector == x
                    && forall|j: int| 0 <= j < k ==> (#[trigger] files[j]).name != name,
            None => forall|j: int| 0 <= j < files.len() ==> (#[trigger] files[j]).name != name,
        },
{
    let b = bytes::be32_bytes(files.len() as int);
    assert(b.len() == 4);
    assert(dir.take(4)[0] == b[0] && dir.take(4)[1] == b[1] && dir.take(4)[2] == b[2] && dir.take(
        4,
    )[3] == b[3]);
    bytes::lemma_round_trip32(files.len() as u32);
    lemma_found_from(dir, files, name, 0);
}

/// Finds a file in the directory: a count, then the entries.
pub fn find_fwcfg_file(dir: &[u8], name: &[u8]) -> (sel: Option<u16>)
    requires
        dir@.len() >= 4,
        dir@.len() >= 4 + 64 * dir_count(dir@),
    ensures
        sel == selector_from(dir@, name@, 0),
{
    assert(dir.len() <= usize::MAX);
    let count: u32 = u32_be(dir, 0);
    let mut i: u32 = 0;
    let mut at: usize = 4;
    while i < count
        invariant
            i <= count,
            count == dir_count(dir@),
            at == 4 + 64 * i,
            dir@.len() >= 4 + 64 * count,
            dir@.len() <= usize::MAX,
            selector_from(dir@, name@, 0) == selector_from(dir@, name@, i as int),
        decreases count - i,
    {
        let mut e: Vec<u8> = Vec::new();
        let mut k: usize = 0;
        while k < DIR_ENTRY_LEN
            invariant
                k <= 64,
                at + 64 <= dir@.len() <= usize::MAX,
                e@ == dir@.subrange(at as int, at + k),
            decreases 64 - k,
        {
            e.push(dir[at + k]);
            k = k + 1;
            assert(e@ =~= dir@.subrange(at as int, at + k));
        }
        assert(e@ == dir_entry(dir@, i as int));
        match entry_selector(&e, name) {
            Some(s) => {
                return Some(s);
            },
            None => {},
        }
        i = i + 1;
        at = at + 64;
    }
    None
}

/// The frame buffer's configuration, most significant bytes first: address,
/// pixel format, flags, width, height, bytes in a line.
pub open spec fn config_bytes() -> Seq<u8> {
    bytes::be64_bytes(FB_PHYS_ADDR as int) + bytes::be32_bytes(DRM_FORMAT_XRGB8888 as int)
        + bytes::be32_bytes(0) + bytes::be32_bytes(FB_WIDTH as int) + bytes::be32_bytes(
        FB_HEIGHT as int,
    ) + bytes::be32_bytes(FB_STRIDE as int)
}

pub fn ramfb_config() -> (v: Vec<u8>)
    ensures
        v@ == config_bytes(),
        v@.len() == 28,
{
    let mut v: Vec<u8> = Vec::new();
    push_be64(&mut v, FB_PHYS_ADDR as u64);
    assert(v@ =~= bytes::be64_bytes(FB_PHYS_ADDR as int));
    push_be32(&mut v, DRM_FORMAT_XRGB8888);
    push_be32(&mut v, 0);
    push_be32(&mut v, FB_WIDTH as u32);
    push_be32(&mut v, FB_HEIGHT as u32);
    push_be32(&mut v, FB_STRIDE as u32);
    v
}

/// The control word that selects a file and writes to it.
pub open spec fn control_word(selector: u16) -> int {
    selector * 0x1_0000 + FWCFG_DMA_CTL_SELECT + FWCFG_DMA_CTL_WRITE
}

/// The transfer of `len` bytes at `address`, most significant bytes first.
pub fn fwcfg_dma_write(selector: u16, address: u64, len: u32) -> (v: Vec<u8>)
    ensures
        v@ == bytes::be32_bytes(control_word(selector)) + bytes::be32_bytes(len as int)
            + bytes::be64_bytes(address as int),
        v@.len() == 16,
{
    let control: u32 = selector as u32 * 0x1_0000 + FWCFG_DMA_CTL_SELECT + FWCFG_DMA_CTL_WRITE;
    let mut v: Vec<u8> = Vec::new();
    push_be32(&mut v, control);
    assert(v@ =~= bytes::be32_bytes(control_word(selector)));
    push_be32(&mut v, len);
    push_be64(&mut v, address);
    v
}

/// What a read of the control word says, after `attempts` reads before it:
/// done, failed, or read again.
pub fn dma_poll(attempts: u32, ctl: u32) -> (r: Option<bool>)
    requires
        attempts <= MAX_POLLS,
    ensures
        r == (if ctl == 0 {
            Some(true)
        } else if ctl % 2 == 1 || attempts >= MAX_POLLS {
            Some(false)
        } else {
            None
        }),
{
    if ctl == 0 {
        return Some(true);
    }
    if ctl % 2 != 0 {
        return Some(false);
    }
    if attempts + 1 > MAX_POLLS {
        return Some(false);
    }
    None
}

/// The frame buffer, as the kernel draws on it.
#[derive(Clone, Copy, Debug, PartialEq, Eq, Structural)]
pub struct FrameBufferInfo {
    pub base_addr: usize,
    pub size: usize,
    pub width: usize,
    pub height: usize,
    pub stride: usize,
    pub bpp: usize,
}

pub open spec fn the_frame() -> FrameBufferInfo {
    FrameBufferInfo {
        base_addr: FB_PHYS_ADDR,
        size: FB_SIZE,
        width: FB_WIDTH,
        height: FB_HEIGHT,
        stride: FB_STRIDE,
        bpp: FB_BPP,
    }
}

/// What comes next.
pub enum RamfbStep {
    /// Clear the frame buffer, write the configuration to the file, and ask
    /// again with how that went.
    Configure { selector: u16, lines: (String, String) },
    /// The frame buffer is there.
    Ready { frame: FrameBufferInfo, line: String },
    /// There is none.
    Missing { reason: &'static str },
}

pub open spec fn found_line(sel: u16) -> Seq<char> {
    "[LFB] Found etc/ramfb at selector 0x"@ + text::pad_start(text::hex(sel as nat), 4, '0')
}

pub open spec fn clearing_line() -> Seq<char> {
    "[LFB] Clearing FB at phys 0x"@ + text::hex(FB_PHYS_ADDR as nat) + " ("@ + text::dec(
        FB_SIZE as nat,
    ) + " bytes)"@
}

pub open spec fn configured_line() -> Seq<char> {
    "[LFB] ramfb configured: "@ + text::dec(FB_WIDTH as nat) + "x"@ + text::dec(FB_HEIGHT as nat)
        + " XRGB8888 at 0x"@ + text::hex(FB_PHYS_ADDR as nat)
}

/// Sets the frame buffer up. `selector` is where its file was found, and
/// `written` how writing the configuration went, once that was tried.
pub fn init_ramfb(selector: Option<u16>, written: Option<bool>) -> (r: RamfbStep)
    ensures
        match (selector, written) {
            (None, _) => r matches RamfbStep::Missing { reason } && reason@
                == "[LFB] etc/ramfb NOT found — no ramfb device?"@,
            (Some(sel), None) => r matches RamfbStep::Configure { selector: s, lines } && s == sel
                && lines.0@ == found_line(sel) && lines.1@ == clearing_line(),
            (Some(_), Some(false)) => r matches RamfbStep::Missing { reason } && reason@
                == "[LFB] fw-cfg DMA write FAILED"@,
            (Some(_), Some(true)) => r matches RamfbStep::Ready { frame, line } && frame
                == the_frame() && line@ == configured_line(),
        },
{
    let sel: u16 = match selector {
        Some(s) => s,
        None => {
            return RamfbStep::Missing { reason: "[LFB] etc/ramfb NOT found — no ramfb device?" };
        },
    };
    match written {
        None => {
            let mut found = "[LFB] Found etc/ramfb at selector 0x".to_owned();
            push_hex_padded(&mut found, sel as u64, 4);
            let mut clearing = "[LFB] Clearing FB at phys 0x".to_owned();
            push_hex(&mut clearing, FB_PHYS_ADDR as u64);
            clearing.append(" (");
            push_dec(&mut clearing, FB_SIZE as u64);
            clearing.append(" bytes)");
            RamfbStep::Configure { selector: sel, lines: (found, clearing) }
        },
        Some(false) => RamfbStep::Missing { reason: "[LFB] fw-cfg DMA write FAILED" },
        Some(true) => {
            let mut line = "[LFB] ramfb configured: ".to_owned();
            push_dec(&mut line, FB_WIDTH as u64);
            line.append("x");
            push_dec(&mut line, FB_HEIGHT as u64);
            line.append(" XRGB8888 at 0x");
            push_hex(&mut line, FB_PHYS_ADDR as u64);
            RamfbStep::Ready {
                frame: FrameBufferInfo {
                    base_addr: FB_PHYS_ADDR,
                    size: FB_SIZE,
                    width: FB_WIDTH,
                    height: FB_HEIGHT,
                    stride: FB_STRIDE,
                    bpp: FB_BPP,
                },
                line,
            }
        },
    }
}

} // verus!
