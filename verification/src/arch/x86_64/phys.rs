//! A snapshot of physical memory, as firmware tables are read from it.

use vstd::prelude::*;

verus! {

/// Bytes from a physical address on.
#[derive(Debug)]
pub struct Region {
    pub base: u64,
    pub bytes: Vec<u8>,
}

impl Region {
    pub open spec fn holds(self, addr: int) -> bool {
        self.base <= addr < self.base + self.bytes@.len()
    }
}

/// What was read of physical memory. An address that no region holds reads as
/// all ones; one that several hold reads as the first of them has it.
#[derive(Debug)]
pub struct PhysMem {
    pub regions: Vec<Region>,
}

/// What the regions from `i` on hold at `addr`.
pub open spec fn at_from(rs: Seq<Region>, i: int, addr: int) -> u8
    decreases rs.len() - i,
{
    if i < 0 || i >= rs.len() {
        0xFF
    } else if rs[i].holds(addr) {
        rs[i].bytes@[addr - rs[i].base]
    } else {
        at_from(rs, i + 1, addr)
    }
}

impl PhysMem {
    pub open spec fn at(self, addr: int) -> u8 {
        at_from(self.regions@, 0, addr)
    }

    /// `n` bytes from `addr` on.
    pub open spec fn window(self, addr: int, n: nat) -> Seq<u8> {
        Seq::new(n, |i: int| self.at(addr + i))
    }

    /// The byte at `addr`.
    pub fn byte(&self, addr: u128) -> (b: u8)
        ensures
            b == self.at(addr as int),
    {
        let mut i: usize = 0;
        while i < self.regions.len()
            invariant
                i <= self.regions@.len(),
                self.at(addr as int) == at_from(self.regions@, i as int, addr as int),
            decreases self.regions@.len() - i,
        {
            let r = &self.regions[i];
            let base: u128 = r.base as u128;
            if base <= addr && addr - base < r.bytes.len() as u128 {
                return r.bytes[(addr - base) as usize];
            }
            i = i + 1;
        }
        0xFF
    }

    /// `n` bytes from `addr` on.
    pub fn read(&self, addr: u128, n: usize) -> (v: Vec<u8>)
        requires
            addr + n <= u128::MAX,
        ensures
            v@ == self.window(addr as int, n as nat),
    {
        let mut v: Vec<u8> = Vec::new();
        let mut i: usize = 0;
        while i < n
            invariant
                i <= n,
                addr + n <= u128::MAX,
                v@ == self.window(addr as int, i as nat),
            decreases n - i,
        {
            v.push(self.byte(addr + i as u128));
            i = i + 1;
            assert(v@ =~= self.window(addr as int, i as nat));
        }
        v
    }

    /// The sum of `n` bytes from `addr` on.
    pub open spec fn byte_sum(self, addr: int, n: nat) -> int
        decreases n,
    {
        if n == 0 {
            0
        } else {
            self.byte_sum(addr, (n - 1) as nat) + self.at(addr + n - 1)
        }
    }

    /// The bytes sum to a multiple of 256.
    pub open spec fn sums_to_zero(self, addr: int, n: nat) -> bool {
        self.byte_sum(addr, n) % 256 == 0
    }

    /// Whether `len` bytes from `addr` on sum to a multiple of 256.
    pub fn checksum_ok(&self, addr: u64, len: u32) -> (ok: bool)
        ensures
            ok == self.sums_to_zero(addr as int, len as nat),
    {
        let mut sum: u8 = 0;
        let mut i: u32 = 0;
        while i < len
            invariant
                i <= len,
                sum == self.byte_sum(addr as int, i as nat) % 256,
            decreases len - i,
        {
            let b: u8 = self.byte(addr as u128 + i as u128);
            sum = sum.wrapping_add(b);
            i = i + 1;
        }
        sum == 0
    }
}

} // verus!
