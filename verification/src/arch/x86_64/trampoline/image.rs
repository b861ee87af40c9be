//! The code that a woken processor starts in: from real mode through protected
//! mode to long mode.

use crate::bytes;
use crate::bytes::{u32_le, u64_le};
use vstd::prelude::*;

verus! {

/// Bytes of the image.
pub const TRAMPOLINE_LEN: usize = 512;

/// Where the image is put.
pub const TRAMPOLINE_PHYS: u64 = 0x8000;

pub const PATCH_LME_ENTRY_OFFSET: usize = 0x1B0;

pub const PATCH_BOOTSTRAP_CR3_OFFSET: usize = 0x1B8;

pub const PATCH_STACK_SLOT_OFFSET: usize = 0x1C0;

pub const PATCH_REAL_CR3_OFFSET: usize = 0x1C8;

pub const PATCH_REAL_CR4_OFFSET: usize = 0x1D0;

pub const PATCH_REAL_CR0_OFFSET: usize = 0x1D8;

pub const TRAMPOLINE_GDT_OFFSET: usize = 0x180;

pub const TRAMPOLINE_GDTR_OFFSET: usize = 0x1A0;

pub const TRAMPOLINE_PROBE_MODE_OFFSET: usize = 0x1E0;

pub const TRAMPOLINE_PROBE_STAGE_OFFSET: usize = 0x1E1;

/// The 16-bit part, at the start: descriptor table, protected mode, far jump.
pub open spec fn prologue_bytes() -> Seq<u8> {
    seq![
        0xFAu8, 0xFC, 0x31, 0xC0, 0x8E, 0xD8, 0x8E, 0xC0, 0x8E, 0xD0, 0xC6, 0x06,
        0xE1, 0x81, 0x0A, 0x80, 0x3E, 0xE0, 0x81, 0x0A, 0x75, 0x03, 0x90, 0xEB,
        0xFD, 0x0F, 0x01, 0x16, 0xA0, 0x81, 0x0F, 0x20, 0xC0, 0x66, 0x83, 0xC8,
        0x01, 0x0F, 0x22, 0xC0, 0x66, 0xEA, 0x50, 0x80, 0x00, 0x00, 0x18, 0x00,
    ]
}

fn prologue() -> (code: [u8; 48])
    ensures
        code@ == prologue_bytes(),
{
    let code: [u8; 48] = [
        0xFA, 0xFC, 0x31, 0xC0, 0x8E, 0xD8, 0x8E, 0xC0, 0x8E, 0xD0, 0xC6, 0x06,
        0xE1, 0x81, 0x0A, 0x80, 0x3E, 0xE0, 0x81, 0x0A, 0x75, 0x03, 0x90, 0xEB,
        0xFD, 0x0F, 0x01, 0x16, 0xA0, 0x81, 0x0F, 0x20, 0xC0, 0x66, 0x83, 0xC8,
        0x01, 0x0F, 0x22, 0xC0, 0x66, 0xEA, 0x50, 0x80, 0x00, 0x00, 0x18, 0x00,
    ];
    assert(code@ =~= prologue_bytes());
    code
}

/// The 32-bit part, at 0x50: segments, page tables, long mode, paging, far jump.
pub open spec fn entry32_bytes() -> Seq<u8> {
    seq![
        0x66u8, 0xB8, 0x10, 0x00, 0x8E, 0xD8, 0x8E, 0xC0, 0x8E, 0xD0, 0xC6, 0x05,
        0xE1, 0x81, 0x00, 0x00, 0x0B, 0x80, 0x3D, 0xE0, 0x81, 0x00, 0x00, 0x0B,
        0x75, 0x03, 0x90, 0xEB, 0xFD, 0x0F, 0x20, 0xE0, 0x83, 0xC8, 0x20, 0x0F,
        0x22, 0xE0, 0xC6, 0x05, 0xE1, 0x81, 0x00, 0x00, 0x0C, 0x80, 0x3D, 0xE0,
        0x81, 0x00, 0x00, 0x0C, 0x75, 0x03, 0x90, 0xEB, 0xFD, 0xA1, 0xB8, 0x81,
        0x00, 0x00, 0x0F, 0x22, 0xD8, 0xB9, 0x80, 0x00, 0x00, 0xC0, 0x0F, 0x32,
        0x0D, 0x00, 0x09, 0x00, 0x00, 0x0F, 0x30, 0xC6, 0x05, 0xE1, 0x81, 0x00,
        0x00, 0x0D, 0x80, 0x3D, 0xE0, 0x81, 0x00, 0x00, 0x0D, 0x75, 0x03, 0x90,
        0xEB, 0xFD, 0xC6, 0x05, 0xE1, 0x81, 0x00, 0x00, 0x0E, 0x80, 0x3D, 0xE0,
        0x81, 0x00, 0x00, 0x0E, 0x75, 0x03, 0x90, 0xEB, 0xFD, 0x0F, 0x20, 0xC0,
        0x0D, 0x00, 0x00, 0x00, 0x80, 0x0F, 0x22, 0xC0, 0xEA, 0xE0, 0x80, 0x00,
        0x00, 0x08, 0x00,
    ]
}

fn entry32() -> (code: [u8; 135])
    ensures
        code@ == entry32_bytes(),
{
    let code: [u8; 135] = [
        0x66, 0xB8, 0x10, 0x00, 0x8E, 0xD8, 0x8E, 0xC0, 0x8E, 0xD0, 0xC6, 0x05,
        0xE1, 0x81, 0x00, 0x00, 0x0B, 0x80, 0x3D, 0xE0, 0x81, 0x00, 0x00, 0x0B,
        0x75, 0x03, 0x90, 0xEB, 0xFD, 0x0F, 0x20, 0xE0, 0x83, 0xC8, 0x20, 0x0F,
        0x22, 0xE0, 0xC6, 0x05, 0xE1, 0x81, 0x00, 0x00, 0x0C, 0x80, 0x3D, 0xE0,
        0x81, 0x00, 0x00, 0x0C, 0x75, 0x03, 0x90, 0xEB, 0xFD, 0xA1, 0xB8, 0x81,
        0x00, 0x00, 0x0F, 0x22, 0xD8, 0xB9, 0x80, 0x00, 0x00, 0xC0, 0x0F, 0x32,
        0x0D, 0x00, 0x09, 0x00, 0x00, 0x0F, 0x30, 0xC6, 0x05, 0xE1, 0x81, 0x00,
        0x00, 0x0D, 0x80, 0x3D, 0xE0, 0x81, 0x00, 0x00, 0x0D, 0x75, 0x03, 0x90,
        0xEB, 0xFD, 0xC6, 0x05, 0xE1, 0x81, 0x00, 0x00, 0x0E, 0x80, 0x3D, 0xE0,
        0x81, 0x00, 0x00, 0x0E, 0x75, 0x03, 0x90, 0xEB, 0xFD, 0x0F, 0x20, 0xC0,
        0x0D, 0x00, 0x00, 0x00, 0x80, 0x0F, 0x22, 0xC0, 0xEA, 0xE0, 0x80, 0x00,
        0x00, 0x08, 0x00,
    ];
    assert(code@ =~= entry32_bytes());
    code
}

/// The 64-bit part, at 0xE0: stack, control registers, jump to the entry.
pub open spec fn entry64_bytes() -> Seq<u8> {
    seq![
        0xC6u8, 0x04, 0x25, 0xE1, 0x81, 0x00, 0x00, 0x0F, 0x80, 0x3C, 0x25, 0xE0,
        0x81, 0x00, 0x00, 0x0F, 0x75, 0x03, 0x90, 0xEB, 0xFD, 0x48, 0x8B, 0x24,
        0x25, 0xC0, 0x81, 0x00, 0x00, 0x48, 0x83, 0xEC, 0x08, 0x48, 0x8B, 0x04,
        0x25, 0xD8, 0x81, 0x00, 0x00, 0x48, 0x0F, 0x22, 0xC0, 0x48, 0x8B, 0x04,
        0x25, 0xD0, 0x81, 0x00, 0x00, 0x48, 0x0F, 0x22, 0xE0, 0xC6, 0x04, 0x25,
        0xE1, 0x81, 0x00, 0x00, 0x10, 0x80, 0x3C, 0x25, 0xE0, 0x81, 0x00, 0x00,
        0x10, 0x75, 0x03, 0x90, 0xEB, 0xFD, 0x48, 0x8B, 0x04, 0x25, 0xC8, 0x81,
        0x00, 0x00, 0x48, 0x0F, 0x22, 0xD8, 0xC6, 0x04, 0x25, 0xE1, 0x81, 0x00,
        0x00, 0x11, 0x80, 0x3C, 0x25, 0xE0, 0x81, 0x00, 0x00, 0x11, 0x75, 0x03,
        0x90, 0xEB, 0xFD, 0x48, 0x8B, 0x04, 0x25, 0xB0, 0x81, 0x00, 0x00, 0xFF,
        0xE0,
    ]
}

fn entry64() -> (code: [u8; 121])
    ensures
        code@ == entry64_bytes(),
{
    let code: [u8; 121] = [
        0xC6, 0x04, 0x25, 0xE1, 0x81, 0x00, 0x00, 0x0F, 0x80, 0x3C, 0x25, 0xE0,
        0x81, 0x00, 0x00, 0x0F, 0x75, 0x03, 0x90, 0xEB, 0xFD, 0x48, 0x8B, 0x24,
        0x25, 0xC0, 0x81, 0x00, 0x00, 0x48, 0x83, 0xEC, 0x08, 0x48, 0x8B, 0x04,
        0x25, 0xD8, 0x81, 0x00, 0x00, 0x48, 0x0F, 0x22, 0xC0, 0x48, 0x8B, 0x04,
        0x25, 0xD0, 0x81, 0x00, 0x00, 0x48, 0x0F, 0x22, 0xE0, 0xC6, 0x04, 0x25,
        0xE1, 0x81, 0x00, 0x00, 0x10, 0x80, 0x3C, 0x25, 0xE0, 0x81, 0x00, 0x00,
        0x10, 0x75, 0x03, 0x90, 0xEB, 0xFD, 0x48, 0x8B, 0x04, 0x25, 0xC8, 0x81,
        0x00, 0x00, 0x48, 0x0F, 0x22, 0xD8, 0xC6, 0x04, 0x25, 0xE1, 0x81, 0x00,
        0x00, 0x11, 0x80, 0x3C, 0x25, 0xE0, 0x81, 0x00, 0x00, 0x11, 0x75, 0x03,
        0x90, 0xEB, 0xFD, 0x48, 0x8B, 0x04, 0x25, 0xB0, 0x81, 0x00, 0x00, 0xFF,
        0xE0,
    ];
    assert(code@ =~= entry64_bytes());
    code
}

/// The descriptors: none, 64-bit code, data, 32-bit code.
pub open spec fn gdt_bytes() -> Seq<u8> {
    seq![
        0x00u8, 0x00, 0x00, 0x00, 0x00, 0x00, 0x00, 0x00, 0xFF, 0xFF, 0x00, 0x00,
        0x00, 0x9A, 0xAF, 0x00, 0xFF, 0xFF, 0x00, 0x00, 0x00, 0x92, 0xCF, 0x00,
        0xFF, 0xFF, 0x00, 0x00, 0x00, 0x9A, 0xCF, 0x00,
    ]
}

fn gdt() -> (code: [u8; 32])
    ensures
        code@ == gdt_bytes(),
{
    let code: [u8; 32] = [
        0x00, 0x00, 0x00, 0x00, 0x00, 0x00, 0x00, 0x00, 0xFF, 0xFF, 0x00, 0x00,
        0x00, 0x9A, 0xAF, 0x00, 0xFF, 0xFF, 0x00, 0x00, 0x00, 0x92, 0xCF, 0x00,
        0xFF, 0xFF, 0x00, 0x00, 0x00, 0x9A, 0xCF, 0x00,
    ];
    assert(code@ =~= gdt_bytes());
    code
}

/// The descriptor pointer: the limit, then the address of the descriptors.
pub open spec fn gdtr_bytes() -> Seq<u8> {
    seq![0x1Fu8, 0x00, 0x80, 0x81, 0x00, 0x00]
}

/// The image before it is patched: five parts at their places, zero elsewhere.
#[verifier::opaque]
pub open spec fn image_bytes() -> Seq<u8> {
    Seq::new(
        512,
        |i: int|
            if i < 48 {
                prologue_bytes()[i]
            } else if 0x50 <= i < 0x50 + 135 {
                entry32_bytes()[i - 0x50]
            } else if 0xE0 <= i < 0xE0 + 121 {
                entry64_bytes()[i - 0xE0]
            } else if 0x180 <= i < 0x180 + 32 {
                gdt_bytes()[i - 0x180]
            } else if 0x1A0 <= i < 0x1A6 {
                gdtr_bytes()[i - 0x1A0]
            } else {
                0
            },
    )
}

/// Copies `part` into `image` from `at` on.
fn put(image: &mut Vec<u8>, part: &[u8], at: usize)
    requires
        at + part@.len() <= old(image)@.len(),
    ensures
        final(image)@.len() == old(image)@.len(),
        forall|i: int|
            0 <= i < final(image)@.len() ==> #[trigger] final(image)@[i] == (if at <= i < at
                + part@.len() {
                part@[i - at]
            } else {
                old(image)@[i]
            }),
{
    let mut i: usize = 0;
    while i < part.len()
        invariant
            i <= part@.len(),
            at + part@.len() <= image@.len() == old(image)@.len(),
            forall|j: int|
                0 <= j < image@.len() ==> #[trigger] image@[j] == (if at <= j < at + i {
                    part@[j - at]
                } else {
                    old(image)@[j]
                }),
        decreases part@.len() - i,
    {
        assert(image.len() <= usize::MAX);
        image.set(at + i, part[i]);
        i = i + 1;
    }
}

/// The image before it is patched.
pub fn trampoline_image() -> (image: Vec<u8>)
    ensures
        image@ == image_bytes(),
{
    let mut image: Vec<u8> = Vec::new();
    let mut i: usize = 0;
    while i < TRAMPOLINE_LEN
        invariant
            i <= 512,
            image@.len() == i,
            forall|j: int| 0 <= j < i ==> #[trigger] image@[j] == 0,
        decreases 512 - i,
    {
        image.push(0);
        i = i + 1;
    }
    let gdtr: [u8; 6] = [0x1F, 0x00, 0x80, 0x81, 0x00, 0x00];
    assert(gdtr@ =~= gdtr_bytes());
    let a = prologue();
    let b = entry32();
    let c = entry64();
    let d = gdt();
    put(&mut image, &a, 0);
    put(&mut image, &b, 0x50);
    put(&mut image, &c, 0xE0);
    put(&mut image, &d, TRAMPOLINE_GDT_OFFSET);
    put(&mut image, &gdtr, TRAMPOLINE_GDTR_OFFSET);
    assert(image@ =~= image_bytes()) by {
        reveal(image_bytes);
    }
    image
}

/// Eight bytes of `buf`, least significant first.
pub fn read_qword_le(buf: &[u8], off: usize) -> (v: u64)
    requires
        off + 8 <= buf@.len(),
    ensures
        v == bytes::le64(buf@, off as int),
{
    u64_le(buf, off)
}

/// Four bytes of `buf`, least significant first.
pub fn read_dword_le(buf: &[u8], off: usize) -> (v: u32)
    requires
        off + 4 <= buf@.len(),
    ensures
        v == bytes::le32(buf@, off as int),
{
    u32_le(buf, off)
}

/// What is wrong with an image, by the first thing that is.
pub open spec fn image_fault(img: Seq<u8>) -> Option<Seq<char>> {
    if img[0x2e] != 0x18 || img[0x2f] != 0x00 {
        Some("real-mode far jump must target 32-bit protected selector 0x18"@)
    } else if img[0x89] != 0xa1 || img[0x8a] != 0xb8 || img[0x8b] != 0x81 {
        Some("protected-mode entry must load bootstrap CR3 from patch slot"@)
    } else if img[0xd5] != 0x08 || img[0xd6] != 0x00 {
        Some("protected-mode far jump must target 64-bit kernel selector 0x08"@)
    } else if img[0x98] != 0x0d || bytes::le32(img, 0x99) != 0x900 {
        Some("protected-mode EFER setup must enable LME|NXE"@)
    } else if bytes::le64(img, 0x1B8) != 0 {
        Some("bootstrap CR3 patch slot non-zero in source image"@)
    } else if bytes::le64(img, 0x1B0) != 0 {
        Some("LME-entry patch slot non-zero in source image"@)
    } else if bytes::le64(img, 0x1C0) != 0 {
        Some("stack patch slot non-zero in source image"@)
    } else if bytes::le64(img, 0x1C8) != 0 {
        Some("real CR3 patch slot non-zero in source image"@)
    } else if bytes::le64(img, 0x1D0) != 0 {
        Some("real CR4 patch slot non-zero in source image"@)
    } else if bytes::le64(img, 0x1D8) != 0 {
        Some("real CR0 patch slot non-zero in source image"@)
    } else if img[0x1E0] != 0 || img[0x1E1] != 0 {
        Some("raw probe control bytes non-zero in source image"@)
    } else if bytes::le32(img, 0x1A2) != 0x8180 {
        Some("GDTR base does not match expected GDT offset"@)
    } else {
        None
    }
}

/// Checks an image.
pub fn check_image(img: &[u8]) -> (r: Result<(), &'static str>)
    requires
        img@.len() == 512,
    ensures
        match image_fault(img@) {
            None => r is Ok,
            Some(m) => r matches Err(e) && e@ == m,
        },
{
    if img[0x2e] != 0x18 || img[0x2f] != 0x00 {
        return Err("real-mode far jump must target 32-bit protected selector 0x18");
    }
    if img[0x89] != 0xa1 || img[0x8a] != 0xb8 || img[0x8b] != 0x81 {
        return Err("protected-mode entry must load bootstrap CR3 from patch slot");
    }
    if img[0xd5] != 0x08 || img[0xd6] != 0x00 {
        return Err("protected-mode far jump must target 64-bit kernel selector 0x08");
    }
    if img[0x98] != 0x0d || read_dword_le(img, 0x99) != 0x900 {
        return Err("protected-mode EFER setup must enable LME|NXE");
    }
    if read_qword_le(img, PATCH_BOOTSTRAP_CR3_OFFSET) != 0 {
        return Err("bootstrap CR3 patch slot non-zero in source image");
    }
    if read_qword_le(img, PATCH_LME_ENTRY_OFFSET) != 0 {
        return Err("LME-entry patch slot non-zero in source image");
    }
    if read_qword_le(img, PATCH_STACK_SLOT_OFFSET) != 0 {
        return Err("stack patch slot non-zero in source image");
    }
    if read_qword_le(img, PATCH_REAL_CR3_OFFSET) != 0 {
        return Err("real CR3 patch slot non-zero in source image");
    }
    if read_qword_le(img, PATCH_REAL_CR4_OFFSET) != 0 {
        return Err("real CR4 patch slot non-zero in source image");
    }
    if read_qword_le(img, PATCH_REAL_CR0_OFFSET) != 0 {
        return Err("real CR0 patch slot non-zero in source image");
    }
    if img[TRAMPOLINE_PROBE_MODE_OFFSET] != 0 || img[TRAMPOLINE_PROBE_STAGE_OFFSET] != 0 {
        return Err("raw probe control bytes non-zero in source image");
    }
    if read_dword_le(img, TRAMPOLINE_GDTR_OFFSET + 2) != TRAMPOLINE_PHYS as u32
        + TRAMPOLINE_GDT_OFFSET as u32 {
        return Err("GDTR base does not match expected GDT offset");
    }
    Ok(())
}

/// The image passes every check.
pub proof fn lemma_image_is_sound()
    ensures
        image_fault(image_bytes()) is None,
{
    reveal(image_bytes);
    let img = image_bytes();
    assert(img[0x2e] == 0x18 && img[0x2f] == 0x00);
    assert(entry32_bytes()[0x39] == 0xa1 && entry32_bytes()[0x3a] == 0xb8 && entry32_bytes()[0x3b]
        == 0x81);
    assert(entry32_bytes()[0x85] == 0x08 && entry32_bytes()[0x86] == 0x00);
    assert(entry32_bytes()[0x48] == 0x0d && entry32_bytes()[0x49] == 0x00
        && entry32_bytes()[0x4a] == 0x09 && entry32_bytes()[0x4b] == 0x00
        && entry32_bytes()[0x4c] == 0x00);
    assert(gdtr_bytes()[2] == 0x80 && gdtr_bytes()[3] == 0x81 && gdtr_bytes()[4] == 0
        && gdtr_bytes()[5] == 0);
    assert(bytes::le32(img, 0x99) == 0x900);
    assert(bytes::le32(img, 0x1A2) == 0x8180);
}

/// Checks the image before it is installed.
pub fn trampoline_self_check() -> (r: Result<(), &'static str>)
    ensures
        r is Ok,
{
    proof {
        lemma_image_is_sound();
    }
    let image = trampoline_image();
    assert(image@.len() == 512) by {
        reveal(image_bytes);
    }
    check_image(&image)
}

/// The values that an image is patched with.
#[derive(Clone, Copy, Debug, PartialEq, Eq, Structural)]
pub struct Patches {
    pub entry: u64,
    pub bootstrap_cr3: u64,
    pub stack: u64,
    pub real_cr3: u64,
    pub real_cr4: u64,
    pub real_cr0: u64,
    pub probe_mode: u8,
    pub probe_stage: u8,
}

impl Patches {
    /// The words of the slots, in the order of the slots.
    pub open spec fn words(self) -> Seq<u64> {
        seq![
            self.entry,
            self.bootstrap_cr3,
            self.stack,
            self.real_cr3,
            self.real_cr4,
            self.real_cr0,
        ]
    }
}

/// The 50 bytes from the first slot on: six words, and the two probe bytes.
pub open spec fn slot_bytes(p: Patches) -> Seq<u8> {
    Seq::new(
        50,
        |i: int|
            if i < 48 {
                bytes::le64_bytes(p.words()[i / 8] as int)[i % 8]
            } else if i == 48 {
                p.probe_mode
            } else {
                p.probe_stage
            },
    )
}

/// The image with its slots filled.
pub open spec fn patched_image(p: Patches) -> Seq<u8> {
    Seq::new(
        512,
        |i: int|
            if 0x1B0 <= i < 0x1B0 + 50 {
                slot_bytes(p)[i - 0x1B0]
            } else {
                image_bytes()[i]
            },
    )
}

/// The image with its slots filled.
pub fn patch_image(p: &Patches) -> (image: Vec<u8>)
    ensures
        image@ == patched_image(*p),
{
    let words: [u64; 6] = [
        p.entry,
        p.bootstrap_cr3,
        p.stack,
        p.real_cr3,
        p.real_cr4,
        p.real_cr0,
    ];
    assert(words@ =~= p.words());
    let mut slots: Vec<u8> = Vec::new();
    let mut k: usize = 0;
    assert(slots@ =~= slot_bytes(*p).take(0));
    while k < 6
        invariant
            k <= 6,
            words@ == p.words(),
            slots@ == slot_bytes(*p).take(8 * k),
        decreases 6 - k,
    {
        let ghost before = slots@;
        bytes::push_le64(&mut slots, words[k]);
        let ghost w = bytes::le64_bytes(words@[k as int] as int);
        assert(w.len() == 8);
        assert forall|i: int| 0 <= i < 8 implies #[trigger] w[i] == slot_bytes(*p)[8 * k + i] by {
            assert((8 * k + i) / 8 == k && (8 * k + i) % 8 == i);
        }
        assert forall|i: int| 0 <= i < 8 * k + 8 implies #[trigger] slots@[i] == slot_bytes(
            *p,
        )[i] by {
            if i < 8 * k {
                assert(slots@[i] == before[i]);
            } else {
                assert(slots@[i] == w[i - 8 * k]);
            }
        }
        k = k + 1;
        assert(slots@ =~= slot_bytes(*p).take(8 * k));
    }
    slots.push(p.probe_mode);
    slots.push(p.probe_stage);
    assert(slots@ =~= slot_bytes(*p));
    let mut image = trampoline_image();
    assert(image@.len() == 512) by {
        reveal(image_bytes);
    }
    put(&mut image, &slots, PATCH_LME_ENTRY_OFFSET);
    assert(image@ =~= patched_image(*p));
    image
}

/// Every slot holds what it was patched with, and no code or descriptor changes.
pub proof fn lemma_slots_hold_patches(p: Patches)
    ensures
        bytes::le64(patched_image(p), PATCH_LME_ENTRY_OFFSET as int) == p.entry,
        bytes::le64(patched_image(p), PATCH_BOOTSTRAP_CR3_OFFSET as int) == p.bootstrap_cr3,
        bytes::le64(patched_image(p), PATCH_STACK_SLOT_OFFSET as int) == p.stack,
        bytes::le64(patched_image(p), PATCH_REAL_CR3_OFFSET as int) == p.real_cr3,
        bytes::le64(patched_image(p), PATCH_REAL_CR4_OFFSET as int) == p.real_cr4,
        bytes::le64(patched_image(p), PATCH_REAL_CR0_OFFSET as int) == p.real_cr0,
        patched_image(p)[TRAMPOLINE_PROBE_MODE_OFFSET as int] == p.probe_mode,
        patched_image(p)[TRAMPOLINE_PROBE_STAGE_OFFSET as int] == p.probe_stage,
        forall|i: int|
            0 <= i < 512 && !(0x1B0 <= i < 0x1E2) ==> #[trigger] patched_image(p)[i]
                == image_bytes()[i],
{
    lemma_slot(p, 0);
    lemma_slot(p, 1);
    lemma_slot(p, 2);
    lemma_slot(p, 3);
    lemma_slot(p, 4);
    lemma_slot(p, 5);
}

/// Slot `k` reads as its word.
proof fn lemma_slot(p: Patches, k: int)
    requires
        0 <= k < 6,
    ensures
        bytes::le64(patched_image(p), 0x1B0 + 8 * k) == p.words()[k],
{
    let img = patched_image(p);
    let v = p.words()[k];
    let b = bytes::le64_bytes(v as int);
    let o = 0x1B0 + 8 * k;
    bytes::lemma_round_trip64(v);
    assert forall|i: int| 0 <= i < 8 implies #[trigger] img[o + i] == b[i] by {
        assert((8 * k + i) / 8 == k && (8 * k + i) % 8 == i);
    }
    assert(img[o + 0] == b[0] && img[o + 1] == b[1] && img[o + 2] == b[2] && img[o + 3] == b[3]);
    assert(img[o + 4] == b[4] && img[o + 5] == b[5] && img[o + 6] == b[6] && img[o + 7] == b[7]);
}

} // verus!
