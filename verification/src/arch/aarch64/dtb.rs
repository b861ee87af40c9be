//! What the kernel takes from the device tree.

use crate::bytes;
use crate::bytes::{push_be32, u32_be, u64_be};
use crate::text;
use crate::text::{push_dec, push_hex};
use flat_device_tree::Fdt;
use vstd::prelude::*;

verus! {

/// The first word of every device tree.
pub const FDT_MAGIC: u32 = 0xd00d_feed;

/// Bytes of the header.
pub const FDT_HEADER_LEN: usize = 40;

/// Deepest nesting of nodes.
pub const MAX_DEPTH: usize = 63;

/// The addresses that the kernel needs for boot.
#[derive(Clone, Copy, Debug, PartialEq, Eq, Structural)]
pub struct DtbInfo {
    pub ram_base: usize,
    pub ram_size: usize,
    pub initrd_start: Option<usize>,
    pub initrd_end: Option<usize>,
    pub uart_base: usize,
    pub gic_dist_base: usize,
    pub gic_cpu_base: usize,
}

#[derive(Clone, Copy, Debug, PartialEq, Eq, Structural)]
pub enum DtbError {
    /// The first word is not the magic number.
    InvalidMagic(u32),
    NoMemoryNode,
    NoMemoryRegion,
    NoMemorySize,
}

// Well-formed trees.

/// `n` rounded up to a multiple of four.
pub open spec fn padded(n: int) -> int {
    (n + 3) / 4 * 4
}

/// The first zero byte from `i` on, or the end.
pub open spec fn zero_from(s: Seq<u8>, i: int) -> int
    decreases s.len() - i,
{
    if i < 0 || i >= s.len() {
        s.len() as int
    } else if s[i] == 0 {
        i
    } else {
        zero_from(s, i + 1)
    }
}

/// The bytes `[lo, hi)` are ASCII.
pub open spec fn ascii_between(s: Seq<u8>, lo: int, hi: int) -> bool {
    forall|i: int| lo <= i < hi ==> #[trigger] s[i] < 0x80
}

/// What may stand next in the innermost open node.
#[derive(Clone, Copy, Debug, PartialEq, Eq, Structural)]
pub enum Part {
    /// Properties, children, or the end.
    Properties,
    /// Children or the end.
    Children,
    /// The end.
    End,
}

/// The structure from `pos` on is well formed, inside `depth` open nodes, of which
/// the innermost goes on with `part`: every node has a terminated ASCII name and is
/// closed, every property has its bytes and stands in a node in front of its
/// children, and the end comes when all nodes are closed. No-op words stand outside
/// of all nodes or right in front of the end of one: [`Fdt`] loses its place on one
/// that a property or a child follows.
pub open spec fn tree_ok(s: Seq<u8>, pos: int, depth: int, part: Part) -> bool
    decreases s.len() - pos,
{
    if pos < 0 || pos + 4 > s.len() {
        false
    } else {
        let token = bytes::be32(s, pos);
        if token == 1 {
            let end = zero_from(s, pos + 4);
            let next = pos + 4 + padded(end + 1 - (pos + 4));
            depth < MAX_DEPTH && part != Part::End && end < s.len() && pos < next <= s.len()
                && ascii_between(s, pos + 4, end) && tree_ok(s, next, depth + 1, Part::Properties)
        } else if token == 2 {
            depth > 0 && tree_ok(s, pos + 4, depth - 1, Part::Children)
        } else if token == 3 {
            if pos + 12 > s.len() {
                false
            } else {
                let next = pos + 12 + padded(bytes::be32(s, pos + 4));
                depth > 0 && part == Part::Properties && pos < next <= s.len() && tree_ok(
                    s,
                    next,
                    depth,
                    Part::Properties,
                )
            }
        } else if token == 4 {
            tree_ok(
                s,
                pos + 4,
                depth,
                if depth > 0 {
                    Part::End
                } else {
                    Part::Children
                },
            )
        } else {
            token == 9 && depth == 0
        }
    }
}

/// A well-formed device tree: header, blocks within the data, property names
/// without a slash, and a well-formed structure.
pub open spec fn valid_fdt(d: Seq<u8>) -> bool {
    &&& d.len() >= 40
    &&& bytes::be32(d, 0) == FDT_MAGIC
    &&& bytes::be32(d, 4) <= d.len()
    &&& bytes::be32(d, 8) + bytes::be32(d, 36) <= d.len()
    &&& bytes::be32(d, 12) + bytes::be32(d, 32) <= d.len()
    &&& forall|i: int|
        bytes::be32(d, 12) <= i < bytes::be32(d, 12) + bytes::be32(d, 32) ==> #[trigger] d[i]
            != 0x2F
    &&& tree_ok(
        d.subrange(bytes::be32(d, 8), bytes::be32(d, 8) + bytes::be32(d, 36)),
        0,
        0,
        Part::Children,
    )
}

/// A piece of the structure of a tree.
#[allow(inconsistent_fields)]
pub enum Piece {
    Begin { name: Seq<u8> },
    End,
    Property { name: u32, value: Seq<u8> },
    Nothing,
    Finish,
}

/// The zeros that fill `n` bytes up to the next multiple of four.
pub open spec fn filling(n: int) -> Seq<u8> {
    Seq::new(((4 - n % 4) % 4) as nat, |i: int| 0u8)
}

/// A piece as it is laid out: its number, then a name that ends in a zero, or length,
/// name and bytes of a property, filled up to four bytes.
pub open spec fn piece_bytes(t: Piece) -> Seq<u8> {
    match t {
        Piece::Begin { name } => bytes::be32_bytes(1) + name + (seq![0u8] + filling(
            name.len() as int + 1,
        )),
        Piece::End => bytes::be32_bytes(2),
        Piece::Property { name, value } => bytes::be32_bytes(3) + bytes::be32_bytes(
            value.len() as int,
        ) + bytes::be32_bytes(name as int) + value + filling(value.len() as int),
        Piece::Nothing => bytes::be32_bytes(4),
        Piece::Finish => bytes::be32_bytes(9),
    }
}

pub open spec fn pieces_bytes(ts: Seq<Piece>) -> Seq<u8>
    decreases ts.len(),
{
    if ts.len() == 0 {
        Seq::empty()
    } else {
        piece_bytes(ts[0]) + pieces_bytes(ts.skip(1))
    }
}

/// Names are ASCII without a zero, and the bytes of a property can be counted.
pub open spec fn is_piece(t: Piece) -> bool {
    match t {
        Piece::Begin { name } => forall|i: int|
            0 <= i < name.len() ==> 0 < #[trigger] name[i] < 0x80,
        Piece::Property { name, value } => value.len() <= u32::MAX,
        _ => true,
    }
}

/// The pieces nest: inside `depth` open nodes, properties only in front of children,
/// and the finish when every node is closed.
pub open spec fn nested(ts: Seq<Piece>, depth: int, part: Part) -> bool
    decreases ts.len(),
{
    if ts.len() == 0 {
        false
    } else {
        let rest = ts.skip(1);
        match ts[0] {
            Piece::Begin { .. } => depth < MAX_DEPTH && part != Part::End && nested(
                rest,
                depth + 1,
                Part::Properties,
            ),
            Piece::End => depth > 0 && nested(rest, depth - 1, Part::Children),
            Piece::Property { .. } => depth > 0 && part == Part::Properties && nested(
                rest,
                depth,
                Part::Properties,
            ),
            Piece::Nothing => nested(
                rest,
                depth,
                if depth > 0 {
                    Part::End
                } else {
                    Part::Children
                },
            ),
            Piece::Finish => depth == 0,
        }
    }
}

/// `b` stands in `s` at `pos`.
spec fn laid_at(s: Seq<u8>, pos: int, b: Seq<u8>) -> bool {
    0 <= pos && pos + b.len() <= s.len() && forall|i: int|
        0 <= i < b.len() ==> s[pos + i] == #[trigger] b[i]
}

proof fn lemma_laid_parts(s: Seq<u8>, pos: int, a: Seq<u8>, b: Seq<u8>)
    requires
        laid_at(s, pos, a + b),
    ensures
        laid_at(s, pos, a),
        laid_at(s, pos + a.len(), b),
{
    assert forall|i: int| 0 <= i < a.len() implies s[pos + i] == #[trigger] a[i] by {
        assert((a + b)[i] == a[i]);
    }
    assert forall|i: int| 0 <= i < b.len() implies s[pos + a.len() + i] == #[trigger] b[i] by {
        assert((a + b)[a.len() + i] == b[i]);
        assert(pos + (a.len() + i) == pos + a.len() + i);
    }
}

proof fn lemma_laid_word(s: Seq<u8>, pos: int, v: u32)
    requires
        laid_at(s, pos, bytes::be32_bytes(v as int)),
    ensures
        bytes::be32(s, pos) == v,
{
    let b = bytes::be32_bytes(v as int);
    assert(b.len() == 4);
    assert(s[pos + 0] == b[0] && s[pos + 1] == b[1] && s[pos + 2] == b[2] && s[pos + 3] == b[3]);
    bytes::lemma_round_trip32(v);
}

proof fn lemma_name_ends(s: Seq<u8>, i: int, end: int)
    requires
        0 <= i <= end < s.len(),
        s[end] == 0,
        forall|k: int| i <= k < end ==> #[trigger] s[k] != 0,
    ensures
        zero_from(s, i) == end,
    decreases end - i,
{
    if i < end {
        assert(s[i] != 0);
        lemma_name_ends(s, i + 1, end);
    }
}

proof fn lemma_filled(n: int)
    requires
        0 <= n,
    ensures
        n + filling(n).len() == padded(n),
{
    let (q, r) = (n / 4, n % 4);
    assert(n == 4 * q + r);
    if r == 0 {
        assert((n + 3) / 4 == q);
    } else {
        assert((n + 3) / 4 == q + 1);
    }
}

/// A structure is well formed exactly where the pieces that were laid out nest.
pub proof fn lemma_tree_reads_back(
    s: Seq<u8>,
    pos: int,
    ts: Seq<Piece>,
    depth: int,
    part: Part,
)
    requires
        0 <= pos,
        s.len() == pos + pieces_bytes(ts).len(),
        forall|i: int| 0 <= i < pieces_bytes(ts).len() ==> s[pos + i] == #[trigger] pieces_bytes(
            ts,
        )[i],
        forall|i: int| 0 <= i < ts.len() ==> is_piece(#[trigger] ts[i]),
    ensures
        tree_ok(s, pos, depth, part) == nested(ts, depth, part),
    decreases ts.len(),
{
    if ts.len() > 0 {
        let t = ts[0];
        let rest = ts.skip(1);
        let b = piece_bytes(t);
        assert(laid_at(s, pos, b + pieces_bytes(rest)));
        lemma_laid_parts(s, pos, b, pieces_bytes(rest));
        assert forall|i: int| 0 <= i < rest.len() implies is_piece(#[trigger] rest[i]) by {
            assert(rest[i] == ts[i + 1]);
        }
        assert(is_piece(t));
        let next = pos + b.len();
        assert forall|i: int| 0 <= i < pieces_bytes(rest).len() implies s[next + i]
            == #[trigger] pieces_bytes(rest)[i] by {}
        match t {
            Piece::Begin { name } => {
                let tail = seq![0u8] + filling(name.len() as int + 1);
                lemma_filled(name.len() as int + 1);
                lemma_laid_parts(s, pos, bytes::be32_bytes(1) + name, tail);
                lemma_laid_parts(s, pos, bytes::be32_bytes(1), name);
                lemma_laid_word(s, pos, 1);
                let end = pos + 4 + name.len();
                assert(tail.len() >= 1);
                assert(s[end + 0] == tail[0]);
                assert forall|k: int| pos + 4 <= k < end implies 0 < #[trigger] s[k] < 0x80 by {
                    assert(s[pos + 4 + (k - (pos + 4))] == name[k - (pos + 4)]);
                }
                lemma_name_ends(s, pos + 4, end);
                lemma_tree_reads_back(s, next, rest, depth + 1, Part::Properties);
            },
            Piece::End => {
                lemma_laid_word(s, pos, 2);
                lemma_tree_reads_back(s, next, rest, depth - 1, Part::Children);
            },
            Piece::Property { name, value } => {
                let n = bytes::be32_bytes(value.len() as int);
                let o = bytes::be32_bytes(name as int);
                let one = bytes::be32_bytes(3);
                let tail = filling(value.len() as int);
                lemma_filled(value.len() as int);
                lemma_laid_parts(s, pos, one + n + o + value, tail);
                lemma_laid_parts(s, pos, one + n + o, value);
                lemma_laid_parts(s, pos, one + n, o);
                lemma_laid_parts(s, pos, one, n);
                lemma_laid_word(s, pos, 3);
                lemma_laid_word(s, pos + 4, value.len() as u32);
                lemma_tree_reads_back(s, next, rest, depth, Part::Properties);
            },
            Piece::Nothing => {
                lemma_laid_word(s, pos, 4);
                lemma_tree_reads_back(
                    s,
                    next,
                    rest,
                    depth,
                    if depth > 0 {
                        Part::End
                    } else {
                        Part::Children
                    },
                );
            },
            Piece::Finish => {
                lemma_laid_word(s, pos, 9);
            },
        }
    }
}

fn find_zero(d: &[u8], base: usize, end: usize, i: usize) -> (z: usize)
    requires
        base <= i <= end <= d@.len(),
    ensures
        i <= z <= end,
        z - base == zero_from(d@.subrange(base as int, end as int), i - base),
{
    let ghost s = d@.subrange(base as int, end as int);
    let mut z: usize = i;
    while z < end && d[z] != 0
        invariant
            base <= i <= z <= end <= d@.len(),
            s == d@.subrange(base as int, end as int),
            zero_from(s, i - base) == zero_from(s, z - base),
        decreases end - z,
    {
        assert(s[z - base] == d@[z as int]);
        z = z + 1;
    }
    if z < end {
        assert(s[z - base] == 0);
    }
    z
}

/// Whether the bytes `[lo, hi)` are ASCII.
fn check_ascii(d: &[u8], lo: usize, hi: usize) -> (ok: bool)
    requires
        lo <= hi <= d@.len(),
    ensures
        ok == ascii_between(d@, lo as int, hi as int),
{
    let mut i: usize = lo;
    while i < hi
        invariant
            lo <= i <= hi <= d@.len(),
            ascii_between(d@, lo as int, i as int),
        decreases hi - i,
    {
        if d[i] >= 0x80 {
            return false;
        }
        i = i + 1;
    }
    true
}

/// Bytes of a block are those of the data.
proof fn lemma_block_bytes(d: Seq<u8>, base: int, end: int, lo: int, hi: int)
    requires
        0 <= base <= lo <= hi <= end <= d.len(),
    ensures
        ascii_between(d, lo, hi) == ascii_between(d.subrange(base, end), lo - base, hi - base),
{
    let s = d.subrange(base, end);
    assert forall|i: int| lo <= i < hi implies #[trigger] d[i] == s[i - base] by {}
    assert forall|i: int| lo - base <= i < hi - base implies #[trigger] s[i] == d[i + base] by {}
    if ascii_between(s, lo - base, hi - base) {
        assert forall|i: int| lo <= i < hi implies #[trigger] d[i] < 0x80 by {
            assert(s[i - base] < 0x80);
        }
    }
}

/// One token of the structure.
enum TreeStep {
    /// The structure is not well formed.
    Bad,
    /// The structure ends here as it should.
    Good,
    /// Go on from here, inside so many nodes.
    Next { pos: usize, depth: usize, part: Part },
}

/// What the step says of the structure `s` of the block that begins at `base`.
spec fn step_says(
    r: TreeStep,
    s: Seq<u8>,
    base: int,
    end: int,
    pos: int,
    depth: int,
    part: Part,
) -> bool {
    match r {
        TreeStep::Bad => !tree_ok(s, pos - base, depth, part),
        TreeStep::Good => tree_ok(s, pos - base, depth, part),
        TreeStep::Next { pos: p, depth: q, part: f } => pos < p <= end && q <= MAX_DEPTH
            && tree_ok(s, pos - base, depth, part) == tree_ok(s, p - base, q as int, f),
    }
}

/// Behind `n` bytes at `at` and their padding, if they end within the block.
fn behind(at: usize, n: usize, end: usize) -> (next: Option<usize>)
    requires
        at <= end,
    ensures
        match next {
            Some(p) => p == at + padded(n as int) && p <= end,
            None => at + padded(n as int) > end,
        },
{
    let room: usize = end - at;
    let over: usize = n % 4;
    let pad: usize = if over == 0 {
        0
    } else {
        4 - over
    };
    assert(n + pad == padded(n as int)) by {
        let k = n as int / 4;
        assert(n == 4 * k + over);
        if over == 0 {
            assert((n + 3) / 4 == k);
        } else {
            assert((n + 3) / 4 == k + 1);
        }
    }
    if n > room || pad > room - n {
        None
    } else {
        Some(at + n + pad)
    }
}

fn begin_step(d: &[u8], base: usize, end: usize, pos: usize, depth: usize, part: Part) -> (r:
    TreeStep)
    requires
        base <= pos,
        pos + 4 <= end <= d@.len(),
        depth <= MAX_DEPTH,
        bytes::be32(d@.subrange(base as int, end as int), pos - base) == 1,
    ensures
        step_says(
            r,
            d@.subrange(base as int, end as int),
            base as int,
            end as int,
            pos as int,
            depth as int,
            part,
        ),
{
    if depth >= MAX_DEPTH || part == Part::End {
        return TreeStep::Bad;
    }
    let z: usize = find_zero(d, base, end, pos + 4);
    if z >= end {
        return TreeStep::Bad;
    }
    match behind(pos + 4, z + 1 - (pos + 4), end) {
        Some(next) => {
            proof {
                lemma_block_bytes(d@, base as int, end as int, pos + 4, z as int);
            }
            if check_ascii(d, pos + 4, z) {
                TreeStep::Next { pos: next, depth: depth + 1, part: Part::Properties }
            } else {
                TreeStep::Bad
            }
        },
        None => TreeStep::Bad,
    }
}

fn prop_step(d: &[u8], base: usize, end: usize, pos: usize, depth: usize, part: Part) -> (r:
    TreeStep)
    requires
        base <= pos,
        pos + 4 <= end <= d@.len(),
        depth <= MAX_DEPTH,
        bytes::be32(d@.subrange(base as int, end as int), pos - base) == 3,
    ensures
        step_says(
            r,
            d@.subrange(base as int, end as int),
            base as int,
            end as int,
            pos as int,
            depth as int,
            part,
        ),
{
    let ghost s = d@.subrange(base as int, end as int);
    if end - pos < 12 {
        return TreeStep::Bad;
    }
    let n: u32 = u32_be(d, pos + 4);
    assert(n == bytes::be32(s, pos - base + 4));
    if depth == 0 || part != Part::Properties {
        return TreeStep::Bad;
    }
    match behind(pos + 12, n as usize, end) {
        Some(next) => {
            TreeStep::Next { pos: next, depth, part: Part::Properties }
        },
        None => TreeStep::Bad,
    }
}

fn tree_step(d: &[u8], base: usize, end: usize, pos: usize, depth: usize, part: Part) -> (r:
    TreeStep)
    requires
        base <= pos <= end <= d@.len(),
        depth <= MAX_DEPTH,
    ensures
        step_says(
            r,
            d@.subrange(base as int, end as int),
            base as int,
            end as int,
            pos as int,
            depth as int,
            part,
        ),
{
    let ghost s = d@.subrange(base as int, end as int);
    if end - pos < 4 {
        return TreeStep::Bad;
    }
    let token: u32 = u32_be(d, pos);
    assert(token == bytes::be32(s, pos - base));
    if token == 1 {
        begin_step(d, base, end, pos, depth, part)
    } else if token == 2 {
        if depth == 0 {
            TreeStep::Bad
        } else {
            TreeStep::Next { pos: pos + 4, depth: depth - 1, part: Part::Children }
        }
    } else if token == 3 {
        prop_step(d, base, end, pos, depth, part)
    } else if token == 4 {
        let part: Part = if depth > 0 {
            Part::End
        } else {
            Part::Children
        };
        TreeStep::Next { pos: pos + 4, depth, part }
    } else if token == 9 && depth == 0 {
        TreeStep::Good
    } else {
        TreeStep::Bad
    }
}

/// Whether the structure block `[base, end)` is well formed.
fn check_tree(d: &[u8], base: usize, end: usize) -> (ok: bool)
    requires
        base <= end <= d@.len(),
    ensures
        ok == tree_ok(d@.subrange(base as int, end as int), 0, 0, Part::Children),
{
    let ghost s = d@.subrange(base as int, end as int);
    let mut pos: usize = base;
    let mut depth: usize = 0;
    let mut part: Part = Part::Children;
    loop
        invariant
            base <= pos <= end <= d@.len(),
            depth <= MAX_DEPTH,
            s == d@.subrange(base as int, end as int),
            tree_ok(s, 0, 0, Part::Children) == tree_ok(s, pos - base, depth as int, part),
        decreases end - pos,
    {
        match tree_step(d, base, end, pos, depth, part) {
            TreeStep::Bad => {
                return false;
            },
            TreeStep::Good => {
                return true;
            },
            TreeStep::Next { pos: p, depth: q, part: f } => {
                pos = p;
                depth = q;
                part = f;
            },
        }
    }
}

/// Whether the data is a well-formed device tree.
pub fn is_valid_fdt(d: &[u8]) -> (ok: bool)
    ensures
        ok == valid_fdt(d@),
{
    if d.len() < FDT_HEADER_LEN || u32_be(d, 0) != FDT_MAGIC {
        return false;
    }
    let len: u64 = d.len() as u64;
    let off_struct: u64 = u32_be(d, 8) as u64;
    let off_strings: u64 = u32_be(d, 12) as u64;
    let size_strings: u64 = u32_be(d, 32) as u64;
    let size_struct: u64 = u32_be(d, 36) as u64;
    if u32_be(d, 4) as u64 > len || off_struct + size_struct > len || off_strings + size_strings
        > len {
        return false;
    }
    let lo: usize = off_strings as usize;
    let hi: usize = (off_strings + size_strings) as usize;
    let mut i: usize = lo;
    while i < hi
        invariant
            lo <= i <= hi <= d@.len(),
            lo == bytes::be32(d@, 12),
            hi == bytes::be32(d@, 12) + bytes::be32(d@, 32),
            forall|j: int| lo <= j < i ==> #[trigger] d@[j] != 0x2F,
        decreases hi - i,
    {
        if d[i] == 0x2F {
            return false;
        }
        i = i + 1;
    }
    check_tree(d, off_struct as usize, (off_struct + size_struct) as usize)
}

// What the tree holds.

/// The first region of the memory node: none without the node, then none
/// without a region, then start and size. Addresses are cut to `bits` bits.
pub uninterp spec fn fdt_memory(data: Seq<u8>, bits: u32) -> Option<Option<(usize, Option<usize>)>>;

/// The bytes of the property `name` of the node at `path`.
pub uninterp spec fn fdt_property(data: Seq<u8>, path: Seq<char>, name: Seq<char>) -> Option<
    Seq<u8>,
>;

/// The starts of the first two regions of the first node that is compatible
/// with `with`. Addresses are cut to `bits` bits.
pub uninterp spec fn fdt_compatible(data: Seq<u8>, with: Seq<char>, bits: u32) -> Option<
    (Option<usize>, Option<usize>),
>;

/// `Fdt::memory` with `Memory::regions`: on a well-formed tree the call returns, and
/// the first region of the memory node is a function of the data and of the width of
/// an address.
#[verifier::external_body]
fn first_memory_region(data: &[u8]) -> (r: Option<Option<(usize, Option<usize>)>>)
    requires
        valid_fdt(data@),
    ensures
        r == fdt_memory(data@, usize::BITS),
{
    let fdt = Fdt::new(data).ok()?;
    let memory = fdt.memory().ok()?;
    Some(memory.regions().next().map(|r| (r.starting_address as usize, r.size)))
}

/// `Fdt::find_node` with `FdtNode::property`: on a well-formed tree the call returns,
/// and the bytes of a property are a function of the data, the path and the name.
/// A path that does not begin with a slash is left out: it is looked up among the
/// aliases, which may lead back to it.
#[verifier::external_body]
fn node_property(data: &[u8], path: &str, name: &str) -> (r: Option<Vec<u8>>)
    requires
        valid_fdt(data@),
        path@.len() > 0,
        path@[0] == '/',
    ensures
        match fdt_property(data@, path@, name@) {
            Some(b) => r matches Some(v) && v@ == b,
            None => r is None,
        },
{
    let fdt = Fdt::new(data).ok()?;
    fdt.find_node(path)?.property(name).map(|p| p.value.to_vec())
}

/// `Fdt::find_compatible` with `FdtNode::reg`: on a well-formed tree the starts
/// of the first two regions of the first compatible node are a function of the
/// data, the name and the width of an address.
#[verifier::external_body]
fn compatible_regs(data: &[u8], with: &str) -> (r: Option<(Option<usize>, Option<usize>)>)
    requires
        valid_fdt(data@),
    ensures
        r == fdt_compatible(data@, with@, usize::BITS),
{
    let fdt = Fdt::new(data).ok()?;
    let mut regs = fdt.find_compatible(&[with])?.reg();
    let first = regs.next().map(|r| r.starting_address as usize);
    let second = regs.next().map(|r| r.starting_address as usize);
    Some((first, second))
}

/// The number that a property holds: eight or four bytes, most significant first.
pub open spec fn prop_value(b: Seq<u8>) -> Option<int> {
    if b.len() == 8 {
        Some(bytes::be64(b, 0))
    } else if b.len() == 4 {
        Some(bytes::be32(b, 0))
    } else {
        None
    }
}

/// A number reads back from a property of one cell or of two.
pub proof fn lemma_property_reads_back(v: u64)
    ensures
        prop_value(bytes::be64_bytes(v as int)) == Some(v as int),
        v <= u32::MAX ==> prop_value(bytes::be32_bytes(v as int)) == Some(v as int),
{
    bytes::lemma_round_trip64(v);
    assert(bytes::be64_bytes(v as int).len() == 8);
    if v <= u32::MAX {
        bytes::lemma_round_trip32(v as u32);
        assert(bytes::be32_bytes(v as int).len() == 4);
    }
}

/// The address that a property holds.
pub fn parse_dtb_u64_prop(b: &[u8]) -> (r: Option<usize>)
    ensures
        r is Some <==> b@.len() == 8 || b@.len() == 4,
        r matches Some(v) ==> v == prop_value(b@)->0 as usize,
{
    if b.len() == 8 {
        Some(u64_be(b, 0) as usize)
    } else if b.len() == 4 {
        Some(u32_be(b, 0) as usize)
    } else {
        None
    }
}

pub open spec fn prop_address(b: Option<Seq<u8>>) -> Option<usize> {
    match b {
        Some(s) => match prop_value(s) {
            Some(v) => Some(v as usize),
            None => None,
        },
        None => None,
    }
}

fn address_of(p: &Option<Vec<u8>>) -> (r: Option<usize>)
    ensures
        r == prop_address(
            match *p {
                Some(v) => Some(v@),
                None => None,
            },
        ),
{
    match p {
        Some(v) => parse_dtb_u64_prop(v),
        None => None,
    }
}

/// Where the serial port is without an entry.
pub const DEFAULT_UART_BASE: usize = 0x0900_0000;

/// Where the interrupt controller is without an entry.
pub const DEFAULT_GIC_DIST_BASE: usize = 0x0800_0000;

pub const DEFAULT_GIC_CPU_BASE: usize = 0x0801_0000;

/// What the tree holds of interest.
pub struct DtbParts {
    /// The memory node's first region.
    pub memory: Option<Option<(usize, Option<usize>)>>,
    pub initrd_start: Option<Vec<u8>>,
    pub initrd_end: Option<Vec<u8>>,
    /// Regions of the serial port.
    pub uart: Option<(Option<usize>, Option<usize>)>,
    /// Regions of the interrupt controller.
    pub gic: Option<(Option<usize>, Option<usize>)>,
}

/// The same, over sequences.
#[verifier::ext_equal]
pub struct PartsView {
    pub memory: Option<Option<(usize, Option<usize>)>>,
    pub initrd_start: Option<Seq<u8>>,
    pub initrd_end: Option<Seq<u8>>,
    pub uart: Option<(Option<usize>, Option<usize>)>,
    pub gic: Option<(Option<usize>, Option<usize>)>,
}

pub open spec fn opt_view(v: Option<Vec<u8>>) -> Option<Seq<u8>> {
    match v {
        Some(b) => Some(b@),
        None => None,
    }
}

impl DtbParts {
    pub open spec fn view(self) -> PartsView {
        PartsView {
            memory: self.memory,
            initrd_start: opt_view(self.initrd_start),
            initrd_end: opt_view(self.initrd_end),
            uart: self.uart,
            gic: self.gic,
        }
    }
}

/// The boot information in the parts: memory must be there with its size; the
/// rest has defaults. The interrupt controller counts only with both regions.
pub open spec fn info_of(p: PartsView) -> Result<DtbInfo, DtbError> {
    match p.memory {
        None => Err(DtbError::NoMemoryNode),
        Some(None) => Err(DtbError::NoMemoryRegion),
        Some(Some((base, None))) => Err(DtbError::NoMemorySize),
        Some(Some((base, Some(size)))) => {
            let gic = match p.gic {
                Some((Some(dist), Some(cpu))) => (dist, cpu),
                _ => (DEFAULT_GIC_DIST_BASE, DEFAULT_GIC_CPU_BASE),
            };
            Ok(
                DtbInfo {
                    ram_base: base,
                    ram_size: size,
                    initrd_start: prop_address(p.initrd_start),
                    initrd_end: prop_address(p.initrd_end),
                    uart_base: match p.uart {
                        Some((Some(base), _)) => base,
                        _ => DEFAULT_UART_BASE,
                    },
                    gic_dist_base: gic.0,
                    gic_cpu_base: gic.1,
                },
            )
        },
    }
}

/// The boot information in the parts.
pub fn dtb_info(p: &DtbParts) -> (r: Result<DtbInfo, DtbError>)
    ensures
        r == info_of(p@),
{
    let (ram_base, ram_size) = match p.memory {
        None => {
            return Err(DtbError::NoMemoryNode);
        },
        Some(None) => {
            return Err(DtbError::NoMemoryRegion);
        },
        Some(Some((_, None))) => {
            return Err(DtbError::NoMemorySize);
        },
        Some(Some((base, Some(size)))) => (base, size),
    };
    let initrd_start: Option<usize> = address_of(&p.initrd_start);
    let initrd_end: Option<usize> = address_of(&p.initrd_end);
    let uart_base: usize = match p.uart {
        Some((Some(base), _)) => base,
        _ => DEFAULT_UART_BASE,
    };
    let (gic_dist_base, gic_cpu_base) = match p.gic {
        Some((Some(dist), Some(cpu))) => (dist, cpu),
        _ => (DEFAULT_GIC_DIST_BASE, DEFAULT_GIC_CPU_BASE),
    };
    Ok(
        DtbInfo {
            ram_base,
            ram_size,
            initrd_start,
            initrd_end,
            uart_base,
            gic_dist_base,
            gic_cpu_base,
        },
    )
}

// From memory to boot information.

/// Where the content ends: with the strings.
pub open spec fn content_size(d: Seq<u8>) -> int {
    bytes::be32(d, 12) + bytes::be32(d, 32)
}

/// The tree with its total size set to the end of the content, and nothing
/// behind that.
pub open spec fn trimmed(d: Seq<u8>) -> Seq<u8> {
    let n = content_size(d);
    Seq::new(
        n as nat,
        |i: int|
            if 4 <= i < 8 {
                bytes::be32_bytes(n)[i - 4]
            } else {
                d[i]
            },
    )
}

fn trim(d: &[u8]) -> (t: Vec<u8>)
    requires
        d@.len() >= 40,
        40 <= content_size(d@) <= d@.len(),
        content_size(d@) <= u32::MAX,
    ensures
        t@ == trimmed(d@),
{
    let n: u32 = u32_be(d, 12) + u32_be(d, 32);
    let mut size: Vec<u8> = Vec::new();
    push_be32(&mut size, n);
    assert(size@ =~= bytes::be32_bytes(n as int));
    let mut t: Vec<u8> = Vec::new();
    let mut i: usize = 0;
    while i < n as usize
        invariant
            i <= n,
            n == content_size(d@),
            n <= d@.len(),
            size@ == bytes::be32_bytes(n as int),
            t@ == trimmed(d@).take(i as int),
        decreases n - i,
    {
        if 4 <= i && i < 8 {
            t.push(size[i - 4]);
        } else {
            t.push(d[i]);
        }
        i = i + 1;
        assert(t@ =~= trimmed(d@).take(i as int));
    }
    assert(t@ =~= trimmed(d@));
    t
}

/// What the tree holds, by the names of its parts.
pub open spec fn parts_of(t: Seq<u8>) -> PartsView {
    PartsView {
        memory: fdt_memory(t, usize::BITS),
        initrd_start: fdt_property(t, "/chosen"@, "linux,initrd-start"@),
        initrd_end: fdt_property(t, "/chosen"@, "linux,initrd-end"@),
        uart: fdt_compatible(t, "arm,pl011"@, usize::BITS),
        gic: fdt_compatible(t, "arm,cortex-a15-gic"@, usize::BITS),
    }
}

/// Takes the parts of interest from a tree.
pub fn read_parts(t: &[u8]) -> (p: DtbParts)
    requires
        valid_fdt(t@),
    ensures
        p@ == parts_of(t@),
{
    proof {
        reveal_strlit("/chosen");
    }
    DtbParts {
        memory: first_memory_region(t),
        initrd_start: node_property(t, "/chosen", "linux,initrd-start"),
        initrd_end: node_property(t, "/chosen", "linux,initrd-end"),
        uart: compatible_regs(t, "arm,pl011"),
        gic: compatible_regs(t, "arm,cortex-a15-gic"),
    }
}

pub open spec fn magic_line(magic: u32) -> Seq<char> {
    "  DTB: invalid magic 0x"@ + text::hex(magic as nat)
}

pub open spec fn size_line(total: int, actual: int) -> Seq<char> {
    "  DTB: totalsize=0x"@ + text::hex(total as nat) + ", actual=0x"@ + text::hex(actual as nat)
        + " ("@ + text::dec(actual as nat) + " bytes)"@
}

/// Reads the boot information of the tree at the start of `d`. The result
/// comes with the line that reports it. A tree counts up to the end of its
/// strings, whatever total size it claims.
pub fn parse(d: &[u8]) -> (r: (Result<DtbInfo, DtbError>, String))
    requires
        d@.len() >= 40,
        bytes::be32(d@, 0) == FDT_MAGIC ==> 40 <= content_size(d@) <= d@.len() && content_size(d@)
            <= u32::MAX && valid_fdt(trimmed(d@)),
    ensures
        bytes::be32(d@, 0) != FDT_MAGIC ==> r.0 == Err::<DtbInfo, DtbError>(
            DtbError::InvalidMagic(bytes::be32(d@, 0) as u32),
        ) && r.1@ == magic_line(bytes::be32(d@, 0) as u32),
        bytes::be32(d@, 0) == FDT_MAGIC ==> r.0 == info_of(parts_of(trimmed(d@))) && r.1@
            == size_line(bytes::be32(d@, 4), content_size(d@)),
{
    let magic: u32 = u32_be(d, 0);
    if magic != FDT_MAGIC {
        let mut line = "  DTB: invalid magic 0x".to_owned();
        push_hex(&mut line, magic as u64);
        return (Err(DtbError::InvalidMagic(magic)), line);
    }
    let actual: u64 = u32_be(d, 12) as u64 + u32_be(d, 32) as u64;
    let mut line = "  DTB: totalsize=0x".to_owned();
    push_hex(&mut line, u32_be(d, 4) as u64);
    line.append(", actual=0x");
    push_hex(&mut line, actual);
    line.append(" (");
    push_dec(&mut line, actual);
    line.append(" bytes)");
    let t: Vec<u8> = trim(d);
    let parts = read_parts(&t);
    (dtb_info(&parts), line)
}

/// Whether `parse` can read the data.
pub fn is_parsable(d: &[u8]) -> (b: bool)
    ensures
        b == (d@.len() >= 40 && (bytes::be32(d@, 0) == FDT_MAGIC ==> 40 <= content_size(d@)
            <= d@.len() && content_size(d@) <= u32::MAX && valid_fdt(trimmed(d@)))),
{
    if d.len() < FDT_HEADER_LEN {
        return false;
    }
    if u32_be(d, 0) != FDT_MAGIC {
        return true;
    }
    let actual: u64 = u32_be(d, 12) as u64 + u32_be(d, 32) as u64;
    if actual < 40 || actual > d.len() as u64 || actual > u32::MAX as u64 {
        return false;
    }
    let t: Vec<u8> = trim(d);
    is_valid_fdt(&t)
}

/// The total size that a tree claims does not matter.
pub proof fn lemma_claimed_size_ignored(d: Seq<u8>, e: Seq<u8>)
    requires
        d.len() >= 40,
        d.len() == e.len(),
        40 <= content_size(d) <= d.len(),
        forall|i: int| 0 <= i < d.len() && !(4 <= i < 8) ==> #[trigger] d[i] == e[i],
    ensures
        trimmed(d) == trimmed(e),
        info_of(parts_of(trimmed(d))) == info_of(parts_of(trimmed(e))),
{
    assert(content_size(d) == content_size(e));
    assert(trimmed(d) =~= trimmed(e));
}

} // verus!
