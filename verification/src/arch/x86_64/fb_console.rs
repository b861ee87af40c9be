//! A text console in the linear frame buffer.

use vstd::arithmetic::div_mod::{lemma_fundamental_div_mod, lemma_fundamental_div_mod_converse};
use vstd::prelude::*;

verus! {

pub const CHAR_WIDTH: usize = 8;

pub const CHAR_HEIGHT: usize = 16;

/// Bytes of the font: sixteen for each of the printable characters.
pub const FONT_LEN: usize = 1520;

#[derive(Clone, Copy, Debug, PartialEq, Eq, Structural)]
pub enum PixelFormat {
    Rgb,
    Bgr,
    U8,
    Other,
}

/// The frame buffer as the boot loader reports it.
#[derive(Clone, Copy, Debug, PartialEq, Eq, Structural)]
pub struct BootFrame {
    pub width: usize,
    pub height: usize,
    /// Pixels from one line to the next.
    pub stride: usize,
    pub bytes_per_pixel: usize,
    pub pixel_format: PixelFormat,
}

/// The frame buffer in bytes.
#[derive(Clone, Copy, Debug, PartialEq, Eq, Structural)]
pub struct FbInfo {
    pub width: usize,
    pub height: usize,
    pub stride_bytes: usize,
    pub bpp_bytes: usize,
    pub format: PixelFormat,
}

impl FbInfo {
    /// Bytes of a pixel that are written.
    pub open spec fn written(self) -> int {
        match self.format {
            PixelFormat::U8 => 1,
            _ => 3,
        }
    }

    /// Bytes of the frame.
    pub open spec fn total(self) -> int {
        self.height * self.stride_bytes
    }

    pub open spec fn cols(self) -> int {
        self.width as int / 8
    }

    pub open spec fn rows(self) -> int {
        self.height as int / 16
    }

    /// There is room for a character, for the bytes of a pixel, for the pixels of
    /// a line, and for the lines of the frame in a buffer of `len` bytes.
    pub open spec fn wf(self, len: int) -> bool {
        &&& self.width >= 8
        &&& self.height >= 16
        &&& self.bpp_bytes >= self.written()
        &&& self.width * self.bpp_bytes <= self.stride_bytes
        &&& self.total() <= len
        &&& len <= usize::MAX
    }
}

/// The console.
#[derive(Clone, Copy, Debug, PartialEq, Eq, Structural)]
pub struct FbConsole {
    pub fb: Option<FbInfo>,
    pub ready: bool,
    pub col: usize,
    pub row: usize,
    /// At the bottom, start over on a fresh screen instead of scrolling.
    pub page_mode: bool,
}

impl FbConsole {
    /// The cursor can move on within machine sizes. It may lie outside of the frame
    /// until the next byte is written.
    pub open spec fn cursor_ok(self) -> bool {
        self.col + 8 <= usize::MAX && self.row < usize::MAX
    }

    /// The cursor can move on, and the frame fits a buffer of `len` bytes.
    pub open spec fn wf(self, len: int) -> bool {
        self.cursor_ok() && (self.fb matches Some(f) ==> f.wf(len))
    }

    pub fn new(page_mode: bool) -> (c: FbConsole)
        ensures
            c == (FbConsole { fb: None, ready: false, col: 0, row: 0, page_mode }),
    {
        FbConsole { fb: None, ready: false, col: 0, row: 0, page_mode }
    }
}

/// The buffer with the frame cleared.
pub open spec fn cleared(f: FbInfo, px: Seq<u8>) -> Seq<u8> {
    Seq::new(
        px.len(),
        |o: int|
            if o < f.total() {
                0
            } else {
                px[o]
            },
    )
}

/// The buffer with the frame moved up by one text row, and the last one cleared.
pub open spec fn scrolled(f: FbInfo, px: Seq<u8>) -> Seq<u8> {
    let shift = 16 * f.stride_bytes;
    let total = f.total();
    if shift >= total {
        px
    } else {
        Seq::new(
            px.len(),
            |o: int|
                if o < total - shift {
                    px[o + shift]
                } else if o < total {
                    0
                } else {
                    px[o]
                },
        )
    }
}

/// Start of the glyph of a byte; anything unprintable is a blank.
pub open spec fn glyph_start(ch: u8) -> int {
    if 0x20 <= ch <= 0x7E {
        (ch - 0x20) * 16
    } else {
        0
    }
}

/// Two to the power of `n`, for a bit of a byte.
pub open spec fn bit_weight(n: int) -> int {
    if n == 0 {
        1
    } else if n == 1 {
        2
    } else if n == 2 {
        4
    } else if n == 3 {
        8
    } else if n == 4 {
        16
    } else if n == 5 {
        32
    } else if n == 6 {
        64
    } else {
        128
    }
}

/// Dot `c` of line `r` of the glyph is lit: the leftmost dot is the highest bit.
pub open spec fn lit(font: Seq<u8>, ch: u8, r: int, c: int) -> bool {
    font[glyph_start(ch) + r] as int / bit_weight(7 - c) % 2 == 1
}

/// The byte at `o` belongs to dot `c` of line `r` of a glyph at `(x, y)`.
pub open spec fn in_dot(f: FbInfo, x: int, y: int, o: int, r: int, c: int) -> bool {
    let inner = o % f.stride_bytes as int;
    &&& o / f.stride_bytes as int == y + r
    &&& inner / f.bpp_bytes as int == x + c
    &&& (inner % f.bpp_bytes as int) < f.written()
}

/// The buffer with the first `n` dots of the glyph at `(x, y)`, line by line.
pub open spec fn dots_drawn(f: FbInfo, font: Seq<u8>, px: Seq<u8>, x: int, y: int, ch: u8, n: int) -> Seq<
    u8,
> {
    Seq::new(
        px.len(),
        |o: int|
            {
                let r = o / f.stride_bytes as int - y;
                let c = o % f.stride_bytes as int / f.bpp_bytes as int - x;
                if 0 <= r < 16 && 0 <= c < 8 && r * 8 + c < n && in_dot(f, x, y, o, r, c) {
                    if lit(font, ch, r, c) {
                        0xFF
                    } else {
                        0
                    }
                } else {
                    px[o]
                }
            },
    )
}

/// The buffer with the glyph at `(x, y)`.
pub open spec fn drawn(f: FbInfo, font: Seq<u8>, px: Seq<u8>, x: int, y: int, ch: u8) -> Seq<u8> {
    dots_drawn(f, font, px, x, y, ch, 128)
}

/// Sets the `n` bytes from `o` on to `v`.
fn set_bytes(buf: &mut [u8], o: usize, n: usize, v: u8)
    requires
        o + n <= old(buf)@.len(),
    ensures
        final(buf)@ == Seq::new(
            old(buf)@.len(),
            |i: int|
                if o <= i < o + n {
                    v
                } else {
                    old(buf)@[i]
                },
        ),
{
    let mut k: usize = 0;
    while k < n
        invariant
            k <= n,
            o + n <= buf@.len() == old(buf)@.len(),
            forall|i: int|
                0 <= i < buf@.len() ==> #[trigger] buf@[i] == (if o <= i < o + k {
                    v
                } else {
                    old(buf)@[i]
                }),
        decreases n - k,
    {
        assert(buf.len() <= usize::MAX);
        buf[o + k] = v;
        k = k + 1;
    }
    assert(buf@ =~= Seq::new(
        old(buf)@.len(),
        |i: int|
            if o <= i < o + n {
                v
            } else {
                old(buf)@[i]
            },
    ));
}

/// Clears the frame.
pub fn clear_frame(buf: &mut [u8], f: &FbInfo)
    requires
        f.wf(old(buf)@.len() as int),
    ensures
        final(buf)@ == cleared(*f, old(buf)@),
{
    assert(f.height * f.stride_bytes >= 0) by (nonlinear_arith);
    set_bytes(buf, 0, f.height * f.stride_bytes, 0);
    assert(buf@ =~= cleared(*f, old(buf)@));
}

/// Moves the frame up by one text row.
pub fn scroll(buf: &mut [u8], f: &FbInfo)
    requires
        f.wf(old(buf)@.len() as int),
    ensures
        final(buf)@ == scrolled(*f, old(buf)@),
{
    assert(16 * f.stride_bytes <= f.height * f.stride_bytes) by (nonlinear_arith)
        requires
            f.height >= 16,
    ;
    let shift: usize = 16 * f.stride_bytes;
    let total: usize = f.height * f.stride_bytes;
    if shift >= total {
        return;
    }
    let keep: usize = total - shift;
    let mut k: usize = 0;
    while k < keep
        invariant
            k <= keep,
            keep + shift == total,
            total <= buf@.len() == old(buf)@.len(),
            forall|i: int|
                0 <= i < buf@.len() ==> #[trigger] buf@[i] == (if i < k {
                    old(buf)@[i + shift]
                } else {
                    old(buf)@[i]
                }),
        decreases keep - k,
    {
        assert(buf.len() <= usize::MAX);
        let b: u8 = buf[k + shift];
        buf[k] = b;
        k = k + 1;
    }
    set_bytes(buf, keep, shift, 0);
    assert(buf@ =~= scrolled(*f, old(buf)@));
}

/// Where the byte `k` of the dot `(col, line)` is, and that the place names them.
proof fn lemma_place(f: FbInfo, len: int, line: int, col: int, k: int)
    requires
        f.wf(len),
        0 <= line < f.height,
        0 <= col < f.width,
        0 <= k < f.bpp_bytes,
    ensures
        ({
            let o = line * f.stride_bytes + col * f.bpp_bytes + k;
            &&& 0 <= line * f.stride_bytes
            &&& 0 <= col * f.bpp_bytes
            &&& 0 <= o < f.total()
            &&& o / f.stride_bytes as int == line
            &&& o % f.stride_bytes as int == col * f.bpp_bytes + k
            &&& (col * f.bpp_bytes + k) / f.bpp_bytes as int == col
            &&& (col * f.bpp_bytes + k) % f.bpp_bytes as int == k
        }),
{
    let s = f.stride_bytes as int;
    let b = f.bpp_bytes as int;
    let inner = col * b + k;
    assert(0 <= col * b && inner < f.width * b) by (nonlinear_arith)
        requires
            0 <= col,
            col + 1 <= f.width,
            0 <= k < b,
            inner == col * b + k,
    ;
    assert(0 <= line * s && line * s + s <= f.height * s) by (nonlinear_arith)
        requires
            0 <= line,
            line + 1 <= f.height,
            s >= 0,
    ;
    let o = line * s + inner;
    lemma_fundamental_div_mod_converse(o, s, line, inner);
    lemma_fundamental_div_mod_converse(inner, b, col, k);
}

/// A byte that belongs to a dot is at its place.
proof fn lemma_dot_at(f: FbInfo, len: int, x: int, y: int, o: int, r: int, c: int)
    requires
        f.wf(len),
        0 <= o,
        in_dot(f, x, y, o, r, c),
    ensures
        o == (y + r) * f.stride_bytes + (x + c) * f.bpp_bytes + o % f.stride_bytes as int
            % f.bpp_bytes as int,
        0 <= o % f.stride_bytes as int % f.bpp_bytes as int,
{
    let s = f.stride_bytes as int;
    let b = f.bpp_bytes as int;
    assert(s > 0) by (nonlinear_arith)
        requires
            f.width * f.bpp_bytes <= s,
            f.width >= 8,
            f.bpp_bytes >= 1,
    ;
    lemma_fundamental_div_mod(o, s);
    lemma_fundamental_div_mod(o % s, b);
    vstd::arithmetic::div_mod::lemma_mod_bound(o % s, b);
    assert(s * (o / s) == (y + r) * s) by (nonlinear_arith)
        requires
            o / s == y + r,
    ;
    assert(b * (o % s / b) == (x + c) * b) by (nonlinear_arith)
        requires
            o % s / b == x + c,
    ;
}

/// Writes one dot.
fn write_pixel(buf: &mut [u8], o: usize, on: bool, f: &FbInfo)
    requires
        o + f.written() <= old(buf)@.len(),
    ensures
        final(buf)@ == Seq::new(
            old(buf)@.len(),
            |i: int|
                if o <= i < o + f.written() {
                    if on {
                        0xFFu8
                    } else {
                        0
                    }
                } else {
                    old(buf)@[i]
                },
        ),
{
    let v: u8 = if on {
        0xFF
    } else {
        0
    };
    match f.format {
        PixelFormat::U8 => set_bytes(buf, o, 1, v),
        _ => set_bytes(buf, o, 3, v),
    }
    assert(buf@ =~= Seq::new(
        old(buf)@.len(),
        |i: int|
            if o <= i < o + f.written() {
                if on {
                    0xFFu8
                } else {
                    0
                }
            } else {
                old(buf)@[i]
            },
    ));
}

fn dot_lit(bits: u8, c: usize) -> (on: bool)
    requires
        c < 8,
    ensures
        on == (bits as int / bit_weight(7 - c) % 2 == 1),
{
    let w: u8 = match c {
        0 => 128,
        1 => 64,
        2 => 32,
        3 => 16,
        4 => 8,
        5 => 4,
        6 => 2,
        _ => 1,
    };
    bits / w % 2 == 1
}

/// Draws a glyph with its upper left dot at `(x, y)`.
pub fn draw_glyph(buf: &mut [u8], f: &FbInfo, font: &[u8], x: usize, y: usize, ch: u8)
    requires
        f.wf(old(buf)@.len() as int),
        font@.len() == FONT_LEN,
        x + 8 <= f.width,
        y + 16 <= f.height,
    ensures
        final(buf)@ == drawn(*f, font@, old(buf)@, x as int, y as int, ch),
{
    let start: usize = if 0x20 <= ch && ch <= 0x7E {
        (ch - 0x20) as usize * 16
    } else {
        0
    };
    let ghost old_px = buf@;
    let len = buf.len();
    let mut n: usize = 0;
    assert(buf@ =~= dots_drawn(*f, font@, old_px, x as int, y as int, ch, 0));
    while n < 128
        invariant
            n <= 128,
            len == buf@.len() == old_px.len(),
            f.wf(len as int),
            font@.len() == FONT_LEN,
            start == glyph_start(ch),
            start + 16 <= FONT_LEN,
            x + 8 <= f.width,
            y + 16 <= f.height,
            buf@ == dots_drawn(*f, font@, old_px, x as int, y as int, ch, n as int),
        decreases 128 - n,
    {
        let r: usize = n / 8;
        let c: usize = n % 8;
        proof {
            lemma_place(*f, len as int, y + r, x + c, 0);
            lemma_place(*f, len as int, y + r, x + c, f.written() - 1);
        }
        let on: bool = dot_lit(font[start + r], c);
        let o: usize = (y + r) * f.stride_bytes + (x + c) * f.bpp_bytes;
        let ghost before = buf@;
        write_pixel(buf, o, on, f);
        let ghost want = dots_drawn(*f, font@, old_px, x as int, y as int, ch, n + 1);
        assert forall|i: int| 0 <= i < buf@.len() implies #[trigger] buf@[i] == want[i] by {
            let ri = i / f.stride_bytes as int - y;
            let ci = i % f.stride_bytes as int / f.bpp_bytes as int - x;
            if o <= i < o + f.written() {
                lemma_place(*f, len as int, y + r, x + c, i - o);
                assert(ri == r && ci == c);
                assert(in_dot(*f, x as int, y as int, i, r as int, c as int));
                assert(r * 8 + c == n);
            } else {
                assert(buf@[i] == before[i]);
                if 0 <= ri < 16 && 0 <= ci < 8 && ri * 8 + ci == n && in_dot(
                    *f,
                    x as int,
                    y as int,
                    i,
                    ri,
                    ci,
                ) {
                    assert(ri == r && ci == c);
                    lemma_dot_at(*f, len as int, x as int, y as int, i, ri, ci);
                    assert(false);
                }
            }
        }
        n = n + 1;
        assert(buf@ =~= want);
    }
}

/// Cursor and screen.
#[verifier::ext_equal]
pub struct Screen {
    pub col: int,
    pub row: int,
    pub px: Seq<u8>,
}

/// The screen after the cursor passed the last row.
pub open spec fn past_bottom(f: FbInfo, page_mode: bool, s: Screen) -> Screen {
    if s.row < f.rows() {
        s
    } else if page_mode {
        Screen { row: 0, px: cleared(f, s.px), ..s }
    } else {
        Screen { row: f.rows() - 1, px: scrolled(f, s.px), ..s }
    }
}

/// The screen after one byte.
pub open spec fn put(f: FbInfo, font: Seq<u8>, page_mode: bool, s: Screen, b: u8) -> Screen {
    let next = if b == 0x0A {
        Screen { col: 0, row: s.row + 1, ..s }
    } else if b == 0x0D {
        Screen { col: 0, ..s }
    } else if b == 0x09 {
        let stop = s.col + 8 - s.col % 8;
        Screen {
            col: if stop < f.cols() {
                stop
            } else {
                f.cols()
            },
            ..s
        }
    } else {
        let wrapped = if s.col >= f.cols() {
            Screen { col: 0, row: s.row + 1, ..s }
        } else {
            s
        };
        let at = past_bottom(f, page_mode, wrapped);
        Screen {
            col: at.col + 1,
            row: at.row,
            px: drawn(f, font, at.px, at.col * 8, at.row * 16, b),
        }
    };
    past_bottom(f, page_mode, next)
}

/// The screen after the first `n` bytes.
pub open spec fn put_all(
    f: FbInfo,
    font: Seq<u8>,
    page_mode: bool,
    s: Screen,
    text: Seq<u8>,
    n: nat,
) -> Screen
    decreases n,
{
    if n == 0 {
        s
    } else {
        put(f, font, page_mode, put_all(f, font, page_mode, s, text, (n - 1) as nat), text[n - 1])
    }
}

fn advance_past_bottom(buf: &mut [u8], f: &FbInfo, page_mode: bool, row: usize) -> (next: usize)
    requires
        f.wf(old(buf)@.len() as int),
    ensures
        forall|col: int|
            (#[trigger] past_bottom(
                *f,
                page_mode,
                Screen { col, row: row as int, px: old(buf)@ },
            )) == (Screen { col, row: next as int, px: final(buf)@ }),
        next < f.rows(),
        final(buf)@.len() == old(buf)@.len(),
{
    let rows: usize = f.height / CHAR_HEIGHT;
    if row < rows {
        return row;
    }
    if page_mode {
        clear_frame(buf, f);
        0
    } else {
        scroll(buf, f);
        rows - 1
    }
}

/// Writes the bytes at the cursor. Without a frame buffer nothing happens.
pub fn write_bytes(con: &mut FbConsole, buf: &mut [u8], font: &[u8], text: &[u8])
    requires
        old(con).wf(old(buf)@.len() as int),
        font@.len() == FONT_LEN,
    ensures
        final(con).wf(final(buf)@.len() as int),
        final(buf)@.len() == old(buf)@.len(),
        match old(con).fb {
            Some(f) if old(con).ready => {
                let s = Screen { col: old(con).col as int, row: old(con).row as int, px: old(buf)@ };
                let e = put_all(f, font@, old(con).page_mode, s, text@, text@.len());
                &&& final(buf)@ == e.px
                &&& *final(con) == (FbConsole {
                    col: e.col as usize,
                    row: e.row as usize,
                    ..*old(con)
                })
                &&& text@.len() > 0 ==> 0 <= e.col <= f.cols() && 0 <= e.row < f.rows()
            },
            _ => final(buf)@ == old(buf)@ && *final(con) == *old(con),
        },
{
    if !con.ready {
        return;
    }
    let f: FbInfo = match con.fb {
        Some(f) => f,
        None => {
            return;
        },
    };
    let cols: usize = f.width / CHAR_WIDTH;
    let page_mode: bool = con.page_mode;
    let mut col: usize = con.col;
    let mut row: usize = con.row;
    let ghost s = Screen { col: con.col as int, row: con.row as int, px: buf@ };
    let mut i: usize = 0;
    while i < text.len()
        invariant
            i <= text@.len(),
            f.wf(buf@.len() as int),
            buf@.len() == old(buf)@.len(),
            font@.len() == FONT_LEN,
            cols == f.cols(),
            col + 8 <= usize::MAX,
            row < usize::MAX,
            i > 0 ==> col <= cols && row < f.rows(),
            (Screen { col: col as int, row: row as int, px: buf@ }) == put_all(
                f,
                font@,
                page_mode,
                s,
                text@,
                i as nat,
            ),
        decreases text@.len() - i,
    {
        let b: u8 = text[i];
        let ghost before = Screen { col: col as int, row: row as int, px: buf@ };
        assert(put_all(f, font@, page_mode, s, text@, (i + 1) as nat) == put(
            f,
            font@,
            page_mode,
            before,
            b,
        ));
        if b == 0x0A {
            col = 0;
            row = row + 1;
        } else if b == 0x0D {
            col = 0;
        } else if b == 0x09 {
            let stop: usize = col + 8 - col % 8;
            col = if stop < cols {
                stop
            } else {
                cols
            };
        } else {
            if col >= cols {
                col = 0;
                row = row + 1;
            }
            let ghost wrapped = Screen { col: col as int, row: row as int, px: buf@ };
            row = advance_past_bottom(buf, &f, page_mode, row);
            let ghost at = Screen { col: col as int, row: row as int, px: buf@ };
            assert(past_bottom(f, page_mode, wrapped) == at);
            draw_glyph(buf, &f, font, col * CHAR_WIDTH, row * CHAR_HEIGHT, b);
            col = col + 1;
        }
        let ghost next = Screen { col: col as int, row: row as int, px: buf@ };
        row = advance_past_bottom(buf, &f, page_mode, row);
        assert(past_bottom(f, page_mode, next) == (Screen {
            col: col as int,
            row: row as int,
            px: buf@,
        }));
        i = i + 1;
    }
    con.col = col;
    con.row = row;
}

/// Writes text at the cursor.
pub fn write_str(con: &mut FbConsole, buf: &mut [u8], font: &[u8], s: &str)
    requires
        old(con).wf(old(buf)@.len() as int),
        font@.len() == FONT_LEN,
    ensures
        final(con).wf(final(buf)@.len() as int),
        final(buf)@.len() == old(buf)@.len(),
        match old(con).fb {
            Some(f) if old(con).ready => {
                let before = Screen {
                    col: old(con).col as int,
                    row: old(con).row as int,
                    px: old(buf)@,
                };
                let text = vstd::utf8::encode_utf8(s@);
                let e = put_all(f, font@, old(con).page_mode, before, text, text.len());
                &&& final(buf)@ == e.px
                &&& *final(con) == (FbConsole {
                    col: e.col as usize,
                    row: e.row as usize,
                    ..*old(con)
                })
            },
            _ => final(buf)@ == old(buf)@ && *final(con) == *old(con),
        },
{
    write_bytes(con, buf, font, s.as_bytes());
}

/// Starts the console, where there is a frame buffer.
pub fn init(con: &mut FbConsole, frame: Option<BootFrame>, buf: &mut [u8])
    requires
        frame matches Some(b) ==> b.stride * b.bytes_per_pixel <= usize::MAX && (FbInfo {
            width: b.width,
            height: b.height,
            stride_bytes: (b.stride * b.bytes_per_pixel) as usize,
            bpp_bytes: b.bytes_per_pixel,
            format: b.pixel_format,
        }).wf(old(buf)@.len() as int),
        frame is None ==> old(con).wf(old(buf)@.len() as int),
        old(con).cursor_ok(),
    ensures
        final(con).wf(final(buf)@.len() as int),
        match frame {
            None => *final(con) == *old(con) && final(buf)@ == old(buf)@,
            Some(b) => {
                let f = FbInfo {
                    width: b.width,
                    height: b.height,
                    stride_bytes: (b.stride * b.bytes_per_pixel) as usize,
                    bpp_bytes: b.bytes_per_pixel,
                    format: b.pixel_format,
                };
                &&& *final(con) == (FbConsole { fb: Some(f), ready: true, ..*old(con) })
                &&& final(buf)@ == cleared(f, old(buf)@)
            },
        },
{
    let b: BootFrame = match frame {
        Some(b) => b,
        None => {
            return;
        },
    };
    let f = FbInfo {
        width: b.width,
        height: b.height,
        stride_bytes: b.stride * b.bytes_per_pixel,
        bpp_bytes: b.bytes_per_pixel,
        format: b.pixel_format,
    };
    con.fb = Some(f);
    clear_frame(buf, &f);
    con.ready = true;
}

/// Starts a fresh screen.
pub fn new_page(con: &mut FbConsole, buf: &mut [u8])
    requires
        old(con).wf(old(buf)@.len() as int),
    ensures
        final(con).wf(final(buf)@.len() as int),
        !old(con).ready ==> *final(con) == *old(con) && final(buf)@ == old(buf)@,
        old(con).ready ==> *final(con) == (FbConsole { col: 0, row: 0, ..*old(con) })
            && final(buf)@ == (match old(con).fb {
            Some(f) => cleared(f, old(buf)@),
            None => old(buf)@,
        }),
{
    if !con.ready {
        return;
    }
    match con.fb {
        Some(f) => {
            clear_frame(buf, &f);
        },
        None => {},
    }
    con.col = 0;
    con.row = 0;
}

/// A glyph changes nothing but the bytes of its own dots.
pub proof fn lemma_glyph_stays_in_cell(
    f: FbInfo,
    font: Seq<u8>,
    px: Seq<u8>,
    x: int,
    y: int,
    ch: u8,
    o: int,
)
    requires
        0 <= o < px.len(),
        !(0 <= o / f.stride_bytes as int - y < 16 && 0 <= o % f.stride_bytes as int
            / f.bpp_bytes as int - x < 8),
    ensures
        drawn(f, font, px, x, y, ch)[o] == px[o],
{
}

/// A glyph shows its font: every dot of it is white or black as its bit says.
pub proof fn lemma_glyph_shows_font(
    f: FbInfo,
    font: Seq<u8>,
    px: Seq<u8>,
    x: int,
    y: int,
    ch: u8,
    r: int,
    c: int,
    k: int,
)
    requires
        f.wf(px.len() as int),
        0 <= x,
        x + 8 <= f.width,
        0 <= y,
        y + 16 <= f.height,
        0 <= r < 16,
        0 <= c < 8,
        0 <= k < f.written(),
    ensures
        0 <= (y + r) * f.stride_bytes + (x + c) * f.bpp_bytes + k < px.len(),
        drawn(f, font, px, x, y, ch)[(y + r) * f.stride_bytes + (x + c) * f.bpp_bytes + k] == (
        if lit(font, ch, r, c) {
            0xFFu8
        } else {
            0
        }),
{
    lemma_place(f, px.len() as int, y + r, x + c, k);
}

/// Scrolling moves every line up by the sixteen lines of a text row: a line shows what
/// the one sixteen below it showed, the last sixteen are black, and nothing behind the
/// frame changes. A frame of a single text row stays as it is.
pub proof fn lemma_scroll_moves_lines(f: FbInfo, px: Seq<u8>, line: int, k: int, o: int)
    requires
        f.wf(px.len() as int),
        0 <= line < f.height,
        0 <= k < f.stride_bytes,
    ensures
        scrolled(f, px).len() == px.len(),
        f.total() <= o < px.len() ==> scrolled(f, px)[o] == px[o],
        ({
            let s = f.stride_bytes as int;
            let shown = scrolled(f, px)[line * s + k];
            if f.height == 16 {
                shown == px[line * s + k]
            } else if line + 16 < f.height {
                shown == px[(line + 16) * s + k]
            } else {
                shown == 0
            }
        }),
{
    let s = f.stride_bytes as int;
    let h = f.height as int;
    assert(16 * s == (h - (h - 16)) * s);
    assert(h * s - 16 * s == (h - 16) * s && (line + 16) * s == line * s + 16 * s && 0 <= line * s
        && line * s + s <= h * s) by (nonlinear_arith)
        requires
            0 <= line < h,
            0 < s,
    ;
    if h == 16 {
        assert(f.total() == 16 * s);
    } else {
        assert(16 * s < h * s) by (nonlinear_arith)
            requires
                16 < h,
                0 < s,
        ;
        if line + 16 < h {
            assert(line * s + k < (h - 16) * s) by (nonlinear_arith)
                requires
                    line + 1 <= h - 16,
                    0 <= k < s,
            ;
        } else {
            assert(line * s + k >= (h - 16) * s) by (nonlinear_arith)
                requires
                    line >= h - 16,
                    0 <= k,
                    0 < s,
            ;
        }
    }
}

/// Byte `k` of the dot at `(x, y)`.
pub open spec fn dot_byte(f: FbInfo, x: int, y: int, k: int) -> int {
    y * f.stride_bytes + x * f.bpp_bytes + k
}

/// The cell in text column `col` and row `row` shows the glyph of `ch`.
pub open spec fn cell_shows(f: FbInfo, font: Seq<u8>, px: Seq<u8>, col: int, row: int, ch: u8) -> bool {
    forall|r: int, c: int, k: int|
        #![trigger dot_byte(f, col * 8 + c, row * 16 + r, k)]
        0 <= r < 16 && 0 <= c < 8 && 0 <= k < f.written() ==> px[dot_byte(
            f,
            col * 8 + c,
            row * 16 + r,
            k,
        )] == (if lit(font, ch, r, c) {
            0xFFu8
        } else {
            0
        })
}

/// Drawing in one cell leaves what another shows.
proof fn lemma_cells_apart(
    f: FbInfo,
    font: Seq<u8>,
    px: Seq<u8>,
    col: int,
    row: int,
    ch: u8,
    other: int,
    shown: u8,
)
    requires
        f.wf(px.len() as int),
        0 <= col < f.cols(),
        0 <= other < f.cols(),
        0 <= row < f.rows(),
        col != other,
        cell_shows(f, font, px, other, row, shown),
    ensures
        cell_shows(f, font, drawn(f, font, px, col * 8, row * 16, ch), other, row, shown),
{
    let after = drawn(f, font, px, col * 8, row * 16, ch);
    assert forall|r: int, c: int, k: int|
        #![trigger dot_byte(f, other * 8 + c, row * 16 + r, k)]
        0 <= r < 16 && 0 <= c < 8 && 0 <= k < f.written() implies after[dot_byte(
        f,
        other * 8 + c,
        row * 16 + r,
        k,
    )] == (if lit(font, shown, r, c) {
        0xFFu8
    } else {
        0
    }) by {
        let o = dot_byte(f, other * 8 + c, row * 16 + r, k);
        lemma_place(f, px.len() as int, row * 16 + r, other * 8 + c, k);
        lemma_glyph_stays_in_cell(f, font, px, col * 8, row * 16, ch, o);
    }
}

/// Printable text that fits into its row stands there, cell by cell, and the cursor
/// stands behind it.
pub proof fn lemma_text_shown(
    f: FbInfo,
    font: Seq<u8>,
    page_mode: bool,
    s: Screen,
    text: Seq<u8>,
    n: nat,
)
    requires
        f.wf(s.px.len() as int),
        0 <= s.col,
        0 <= s.row < f.rows(),
        n <= text.len(),
        s.col + n <= f.cols(),
        forall|i: int| 0 <= i < n ==> 0x20 <= #[trigger] text[i] <= 0x7E,
    ensures
        ({
            let r = put_all(f, font, page_mode, s, text, n);
            &&& r.col == s.col + n
            &&& r.row == s.row
            &&& r.px.len() == s.px.len()
            &&& forall|i: int|
                0 <= i < n ==> cell_shows(f, font, r.px, s.col + i, s.row, #[trigger] text[i])
        }),
    decreases n,
{
    if n > 0 {
        let k = n - 1;
        lemma_text_shown(f, font, page_mode, s, text, k as nat);
        let b = put_all(f, font, page_mode, s, text, k as nat);
        let ch = text[k];
        let r = put_all(f, font, page_mode, s, text, n);
        assert(r.px == drawn(f, font, b.px, b.col * 8, b.row * 16, ch));
        assert forall|i: int| 0 <= i < n implies cell_shows(
            f,
            font,
            r.px,
            s.col + i,
            s.row,
            #[trigger] text[i],
        ) by {
            if i < k {
                lemma_cells_apart(f, font, b.px, b.col, b.row, ch, s.col + i, text[i]);
            } else {
                assert forall|y: int, c: int, j: int|
                    #![trigger dot_byte(f, b.col * 8 + c, b.row * 16 + y, j)]
                    0 <= y < 16 && 0 <= c < 8 && 0 <= j < f.written() implies r.px[dot_byte(
                    f,
                    b.col * 8 + c,
                    b.row * 16 + y,
                    j,
                )] == (if lit(font, ch, y, c) {
                    0xFFu8
                } else {
                    0
                }) by {
                    lemma_glyph_shows_font(
                        f,
                        font,
                        b.px,
                        b.col * 8,
                        b.row * 16,
                        ch,
                        y,
                        c,
                        j,
                    );
                }
            }
        }
    }
}

/// The bytes that move the cursor: a line feed to the start of the next row, a carriage
/// return to the start of the row, a tab to the next column that is a multiple of eight,
/// or to the end of the row; none of them draws. Past the last row the screen scrolls,
/// or starts over.
pub proof fn lemma_cursor_moves(f: FbInfo, font: Seq<u8>, page_mode: bool, s: Screen, c: int)
    requires
        f.width >= 8,
        f.height >= 16,
        0 <= s.col <= f.cols(),
        0 <= s.row < f.rows(),
    ensures
        ({
            let lf = put(f, font, page_mode, s, 10);
            let cr = put(f, font, page_mode, s, 13);
            let tab = put(f, font, page_mode, s, 9);
            &&& lf.col == 0 && cr.col == 0
            &&& s.row + 1 < f.rows() ==> lf.row == s.row + 1 && lf.px == s.px
            &&& s.row + 1 == f.rows() ==> if page_mode {
                lf.row == 0 && lf.px == cleared(f, s.px)
            } else {
                lf.row == s.row && lf.px == scrolled(f, s.px)
            }
            &&& cr.row == s.row && cr.px == s.px && tab.row == s.row && tab.px == s.px
            &&& tab.col == f.cols() || (tab.col % 8 == 0 && s.col < tab.col <= s.col + 8)
            &&& tab.col <= f.cols()
            &&& tab.col == f.cols() && s.col < c < f.cols() ==> c % 8 != 0
        }),
{
    let stop = s.col + 8 - s.col % 8;
    assert(stop % 8 == 0);
}

/// A character that finds its row full goes to the start of the next row.
pub proof fn lemma_text_wraps(f: FbInfo, font: Seq<u8>, page_mode: bool, s: Screen, b: u8)
    requires
        f.width >= 8,
        f.height >= 16,
        s.col >= f.cols(),
        0 <= s.row < f.rows(),
        0x20 <= b <= 0x7E,
    ensures
        put(f, font, page_mode, s, b) == put(
            f,
            font,
            page_mode,
            put(f, font, page_mode, s, 10),
            b,
        ),
{
}

} // verus!
