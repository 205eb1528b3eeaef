//! Terminal image output: an RGBA pixel buffer turned into text that a
//! terminal displays, in one of several graphics protocols.
//!
//!   1. Kitty graphics protocol (iTerm2 uses a variant too).
//!   2. DEC sixel.
//!   3. Half-block ANSI truecolor cells.
//!   4. (Text mode is handled by the caller.)
//!
//! Each encoder appends its output to a `String`; writing it out is the
//! caller's business.

use vstd::prelude::*;
use crate::config::OutputMode;
use crate::text::{chars_of, dec, push_char, push_chars, push_decimal, subslice};

verus! {

/// A decoded RGBA8 image in memory, row-major, top-left origin.
#[derive(Debug, Clone)]
pub struct Frame {
    pub width: u32,
    pub height: u32,
    /// RGBA8, 4 bytes per pixel, `width * height * 4` long.
    pub pixels: Vec<u8>,
}

/// The frame holds all `width * height` pixels, and every pixel offset fits
/// in a `u32`.
pub open spec fn frame_fits(f: Frame) -> bool {
    &&& 4 * f.width * f.height <= f.pixels@.len()
    &&& 4 * f.width * f.height <= 0x1_0000_0000
}

/// The RGBA value of pixel (x, y).
pub open spec fn px(f: Frame, x: int, y: int) -> (u8, u8, u8, u8) {
    let i = 4 * (y * f.width + x);
    (f.pixels@[i], f.pixels@[i + 1], f.pixels@[i + 2], f.pixels@[i + 3])
}

proof fn lemma_pixel_offset(w: int, h: int, x: int, y: int)
    requires
        0 <= x < w,
        0 <= y < h,
    ensures
        0 <= y * w,
        0 <= y * w + x,
        y * w + x + 1 <= w * h,
        (y * w + x) * 4 + 4 <= 4 * w * h,
{
    assert(y * w + x + 1 <= (y + 1) * w) by (nonlinear_arith)
        requires
            0 <= x < w,
            0 <= y,
    ;
    assert((y + 1) * w <= h * w) by (nonlinear_arith)
        requires
            y + 1 <= h,
            0 <= w,
    ;
    assert(0 <= y * w) by (nonlinear_arith)
        requires
            0 <= y,
            0 <= w,
    ;
    assert(h * w == w * h) by (nonlinear_arith);
    assert(4 * w * h == 4 * (w * h)) by (nonlinear_arith);
}

impl Frame {
    pub fn from_rgba(width: u32, height: u32, pixels: Vec<u8>) -> (res: Self)
        ensures
            res.width == width,
            res.height == height,
            res.pixels@ == pixels@,
    {
        Frame { width, height, pixels }
    }

    /// Whether the buffer holds all `width * height` pixels, with every
    /// pixel offset in range of a `u32`.
    pub fn fits(&self) -> (res: bool)
        ensures
            res == frame_fits(*self),
    {
        let w: u64 = self.width as u64;
        let h: u64 = self.height as u64;
        assert(w * h <= 0xffff_ffff_ffff_ffff) by (nonlinear_arith)
            requires
                w <= 0xffff_ffff,
                h <= 0xffff_ffff,
        ;
        let area: u64 = w * h;
        if area > 0x4000_0000 {
            assert(4 * self.width * self.height == 4 * area) by (nonlinear_arith)
                requires area == w * h, w == self.width, h == self.height;
            return false;
        }
        assert(4 * self.width * self.height == 4 * area) by (nonlinear_arith)
            requires area == w * h, w == self.width, h == self.height;
        let bytes: u64 = 4 * area;
        bytes <= self.pixels.len() as u64
    }

    fn pixel(&self, x: u32, y: u32) -> (res: (u8, u8, u8, u8))
        requires
            frame_fits(*self),
            x < self.width,
            y < self.height,
        ensures
            res == px(*self, x as int, y as int),
    {
        proof {
            lemma_pixel_offset(self.width as int, self.height as int, x as int, y as int);
        }
        let i = ((y * self.width + x) * 4) as usize;
        (self.pixels[i], self.pixels[i + 1], self.pixels[i + 2], self.pixels[i + 3])
    }
}

/// The base64 alphabet (RFC 4648): `A-Z`, `a-z`, `0-9`, `+`, `/`.
pub open spec fn b64_char(v: u8) -> char {
    if v < 26 {
        (65 + v) as char
    } else if v < 52 {
        (97 + v - 26) as char
    } else if v < 62 {
        (48 + v - 52) as char
    } else if v == 62 {
        '+'
    } else {
        '/'
    }
}

/// The four characters for the group `b0 b1 b2`, of which the first `n`
/// (1 to 3) are data: missing sextets are `=` padding.
pub open spec fn b64_group(b0: u8, b1: u8, b2: u8, n: int) -> Seq<char> {
    seq![
        b64_char(b0 >> 2),
        b64_char(((b0 & 3) << 4) | (b1 >> 4)),
        if n > 1 {
            b64_char(((b1 & 15) << 2) | (b2 >> 6))
        } else {
            '='
        },
        if n > 2 {
            b64_char(b2 & 63)
        } else {
            '='
        },
    ]
}

/// Standard base64 with padding (RFC 4648) of `d`.
pub open spec fn base64(d: Seq<u8>) -> Seq<char>
    decreases d.len(),
{
    if d.len() == 0 {
        Seq::empty()
    } else {
        let b1: u8 = if d.len() > 1 {
            d[1]
        } else {
            0
        };
        let b2: u8 = if d.len() > 2 {
            d[2]
        } else {
            0
        };
        b64_group(d[0], b1, b2, d.len() as int) + if d.len() > 3 {
            base64(d.skip(3))
        } else {
            Seq::empty()
        }
    }
}

/// Base64 turns every started group of three bytes into four characters.
pub proof fn law_base64_length(d: Seq<u8>)
    ensures
        base64(d).len() == 4 * ((d.len() + 2) / 3),
    decreases d.len(),
{
    if d.len() > 3 {
        law_base64_length(d.skip(3));
    }
}

/// Base64 of data split after a whole number of three-byte groups is the
/// base64 of the two parts, one after the other.
pub proof fn law_base64_split(a: Seq<u8>, c: Seq<u8>)
    requires
        a.len() % 3 == 0,
    ensures
        base64(a + c) == base64(a) + base64(c),
    decreases a.len(),
{
    if a.len() == 0 {
        assert(a + c == c);
        assert(base64(a) + base64(c) == base64(c));
    } else {
        let d = a + c;
        assert(d[0] == a[0] && d[1] == a[1] && d[2] == a[2]);
        assert(d.skip(3) == a.skip(3) + c);
        law_base64_split(a.skip(3), c);
        if a.len() == 3 {
            assert(a.skip(3) + c == c);
            assert(base64(a.skip(3)) == Seq::<char>::empty());
            if c.len() == 0 {
                assert(d == a);
                assert(base64(a) + base64(c) == base64(a));
            }
        }
    }
}

/// The sextet that a base64 character stands for.
pub open spec fn b64_value(ch: char) -> u8 {
    let u = ch as u32;
    if 65 <= u < 91 {
        (u - 65) as u8
    } else if 97 <= u < 123 {
        (u - 71) as u8
    } else if 48 <= u < 58 {
        (u + 4) as u8
    } else if ch == '+' {
        62
    } else {
        63
    }
}

/// The bytes of one group of four base64 characters (`=` marks padding).
pub open spec fn b64_decode_group(c0: char, c1: char, c2: char, c3: char) -> Seq<u8> {
    let v0 = b64_value(c0);
    let v1 = b64_value(c1);
    let v2 = b64_value(c2);
    let v3 = b64_value(c3);
    let x0 = ((v0 << 2) | (v1 >> 4)) as u8;
    let x1 = (((v1 & 15) << 4) | (v2 >> 2)) as u8;
    let x2 = (((v2 & 3) << 6) | v3) as u8;
    if c2 == '=' {
        seq![x0]
    } else if c3 == '=' {
        seq![x0, x1]
    } else {
        seq![x0, x1, x2]
    }
}

/// Standard base64 decoding of padded text, group by group.
pub open spec fn base64_decode(s: Seq<char>) -> Seq<u8>
    decreases s.len(),
{
    if s.len() < 4 {
        Seq::empty()
    } else {
        b64_decode_group(s[0], s[1], s[2], s[3]) + base64_decode(s.skip(4))
    }
}

proof fn lemma_b64_char_value(v: u8)
    requires
        v < 64,
    ensures
        b64_value(b64_char(v)) == v,
        b64_char(v) != '=',
{
}

proof fn lemma_b64_group_decode(b0: u8, b1: u8, b2: u8, n: int)
    requires
        1 <= n,
        n <= 2 ==> b2 == 0,
        n <= 1 ==> b1 == 0,
    ensures
        ({
            let g = b64_group(b0, b1, b2, n);
            b64_decode_group(g[0], g[1], g[2], g[3]) == if n == 1 {
                seq![b0]
            } else if n == 2 {
                seq![b0, b1]
            } else {
                seq![b0, b1, b2]
            }
        }),
{
    let s0: u8 = b0 >> 2;
    let s1: u8 = ((b0 & 3) << 4) | (b1 >> 4);
    let s2: u8 = ((b1 & 15) << 2) | (b2 >> 6);
    let s3: u8 = b2 & 63;
    assert(s0 < 64 && s1 < 64 && s2 < 64 && s3 < 64) by (bit_vector)
        requires
            s0 == b0 >> 2,
            s1 == ((b0 & 3) << 4) | (b1 >> 4),
            s2 == ((b1 & 15) << 2) | (b2 >> 6),
            s3 == b2 & 63,
    ;
    lemma_b64_char_value(s0);
    lemma_b64_char_value(s1);
    lemma_b64_char_value(s2);
    lemma_b64_char_value(s3);
    assert(((s0 << 2) | (s1 >> 4)) as u8 == b0) by (bit_vector)
        requires
            s0 == b0 >> 2,
            s1 == ((b0 & 3) << 4) | (b1 >> 4),
    ;
    assert((((s1 & 15) << 4) | (s2 >> 2)) as u8 == b1) by (bit_vector)
        requires
            s1 == ((b0 & 3) << 4) | (b1 >> 4),
            s2 == ((b1 & 15) << 2) | (b2 >> 6),
    ;
    assert((((s2 & 3) << 6) | s3) as u8 == b2) by (bit_vector)
        requires
            s2 == ((b1 & 15) << 2) | (b2 >> 6),
            s3 == b2 & 63,
    ;
}

/// Decoding the base64 of some bytes gives the bytes back.
pub proof fn law_base64_decodes(d: Seq<u8>)
    ensures
        base64_decode(base64(d)) == d,
    decreases d.len(),
{
    if d.len() > 0 {
        let b1: u8 = if d.len() > 1 { d[1] } else { 0 };
        let b2: u8 = if d.len() > 2 { d[2] } else { 0 };
        let n: int = if d.len() >= 3 { 3 } else { d.len() as int };
        let g = b64_group(d[0], b1, b2, d.len() as int);
        assert(g == b64_group(d[0], b1, b2, n));
        lemma_b64_group_decode(d[0], b1, b2, n);
        let rest = if d.len() > 3 { base64(d.skip(3)) } else { Seq::<char>::empty() };
        let e = base64(d);
        assert(e == g + rest);
        assert(e[0] == g[0] && e[1] == g[1] && e[2] == g[2] && e[3] == g[3]);
        assert(e.skip(4) == rest);
        if d.len() > 3 {
            law_base64_decodes(d.skip(3));
            assert(d =~= seq![d[0], d[1], d[2]] + d.skip(3));
        } else {
            assert(base64_decode(Seq::<char>::empty()) == Seq::<u8>::empty());
            if d.len() == 1 {
                assert(d =~= seq![d[0]]);
            } else if d.len() == 2 {
                assert(d =~= seq![d[0], d[1]]);
            } else {
                assert(d =~= seq![d[0], d[1], d[2]]);
            }
        }
    }
}

fn b64_char_of(v: u8) -> (res: char)
    requires
        v < 64,
    ensures
        res == b64_char(v),
{
    if v < 26 {
        (65 + v) as char
    } else if v < 52 {
        (97 + v - 26) as char
    } else if v < 62 {
        (48 + v - 52) as char
    } else if v == 62 {
        '+'
    } else {
        '/'
    }
}

/// Encode as base64 for the kitty graphics protocol.
pub fn b64(data: &[u8]) -> (res: String)
    ensures
        res@ == base64(data@),
{
    let mut out = String::new();
    let len = data.len();
    let mut i: usize = 0;
    assert(data@.skip(0) == data@);
    while i < len
        invariant
            len == data@.len(),
            i <= len,
            base64(data@) == out@ + base64(data@.skip(i as int)),
        decreases len - i,
    {
        let ghost rest = data@.skip(i as int);
        let n = len - i;
        let b0 = data[i];
        let b1: u8 = if n > 1 {
            data[i + 1]
        } else {
            0
        };
        let b2: u8 = if n > 2 {
            data[i + 2]
        } else {
            0
        };
        assert(rest[0] == b0);
        assert(n > 1 ==> rest[1] == b1);
        assert(n > 2 ==> rest[2] == b2);
        let w: u32 = ((b0 as u32) << 16) | ((b1 as u32) << 8) | (b2 as u32);
        let c0 = ((w >> 18) & 63) as u8;
        let c1 = ((w >> 12) & 63) as u8;
        let c2 = ((w >> 6) & 63) as u8;
        let c3 = (w & 63) as u8;
        assert(c0 == b0 >> 2 && c1 == ((b0 & 3) << 4) | (b1 >> 4) && c2 == ((b1 & 15) << 2) | (b2
            >> 6) && c3 == b2 & 63) by (bit_vector)
            requires
                w == ((b0 as u32) << 16) | ((b1 as u32) << 8) | (b2 as u32),
                c0 == ((w >> 18) & 63) as u8,
                c1 == ((w >> 12) & 63) as u8,
                c2 == ((w >> 6) & 63) as u8,
                c3 == (w & 63) as u8,
        ;
        assert(c0 < 64 && c1 < 64 && c2 < 64 && c3 < 64) by (bit_vector)
            requires
                c0 == ((w >> 18) & 63) as u8,
                c1 == ((w >> 12) & 63) as u8,
                c2 == ((w >> 6) & 63) as u8,
                c3 == (w & 63) as u8,
        ;
        let ghost before = out@;
        push_char(&mut out, b64_char_of(c0));
        push_char(&mut out, b64_char_of(c1));
        if n > 1 {
            push_char(&mut out, b64_char_of(c2));
        } else {
            push_char(&mut out, '=');
        }
        if n > 2 {
            push_char(&mut out, b64_char_of(c3));
        } else {
            push_char(&mut out, '=');
        }
        assert(out@ =~= before + b64_group(b0, b1, b2, n as int));
        if n > 3 {
            assert(rest.skip(3) == data@.skip(i + 3));
            i = i + 3;
        } else {
            assert(data@.skip(len as int) =~= Seq::<u8>::empty());
            i = len;
        }
    }
    assert(data@.skip(len as int) =~= Seq::<u8>::empty());
    out
}


/// The escapes that carry `payload` in chunks of at most 4096 characters,
/// the first with the control keys `keys` before `m=`: `m=1` on every chunk
/// that more data follows, `m=0` on the last.
pub open spec fn kitty_chunks(keys: Seq<char>, payload: Seq<char>) -> Seq<char>
    decreases payload.len(),
{
    if payload.len() <= 4096 {
        "\x1b_G"@ + keys + "m=0;"@ + payload + "\x1b\\"@
    } else {
        "\x1b_G"@ + keys + "m=1;"@ + payload.take(4096) + "\x1b\\"@ + kitty_chunks(
            Seq::empty(),
            payload.skip(4096),
        )
    }
}

/// The control keys of the first escape: transmit and display (`a=T`) RGBA
/// pixels (`f=32`) of the frame's size.
pub open spec fn kitty_keys(f: Frame) -> Seq<char> {
    "a=T,f=32,s="@ + dec(f.width as nat) + ",v="@ + dec(f.height as nat) + ","@
}

/// Kitty graphics protocol: the RGBA payload in base64, chunked.
pub open spec fn kitty_spec(f: Frame) -> Seq<char> {
    kitty_chunks(kitty_keys(f), base64(f.pixels@))
}

/// Kitty graphics protocol. Format understood by kitty and (mostly) iTerm2.
/// The full RGBA payload is written in base64, in chunks.
pub fn emit_kitty(w: &mut String, frame: &Frame)
    ensures
        final(w)@ == old(w)@ + kitty_spec(*frame),
{
    let mut keys = String::new();
    keys.append("a=T,f=32,s=");
    push_decimal(&mut keys, frame.width as u64);
    keys.append(",v=");
    push_decimal(&mut keys, frame.height as u64);
    keys.append(",");
    let payload = b64(frame.pixels.as_slice());
    let p = chars_of(payload.as_str());
    let n = p.len();
    let mut off: usize = 0;
    let mut first = true;
    let ghost keys0 = keys@;
    let ghost total = old(w)@ + kitty_chunks(keys0, p@);
    assert(p@.skip(0) == p@);
    loop
        invariant_except_break
            off <= n,
            n == p@.len(),
            first ==> off == 0,
            keys@ == keys0,
            w@ + kitty_chunks(if first { keys0 } else { Seq::empty() }, p@.skip(off as int)) == total,
        ensures
            w@ == total,
        decreases n - off,
    {
        let ghost k = if first { keys0 } else { Seq::<char>::empty() };
        let ghost rest = p@.skip(off as int);
        w.append("\x1b_G");
        if first {
            w.append(keys.as_str());
        }
        if n - off <= 4096 {
            w.append("m=0;");
            let chunk = subslice(p.as_slice(), off, n);
            assert(chunk@ == rest);
            push_chars(w, chunk.as_slice());
            w.append("\x1b\\");
            break;
        }
        w.append("m=1;");
        let chunk = subslice(p.as_slice(), off, off + 4096);
        assert(chunk@ == rest.take(4096));
        assert(rest.skip(4096) == p@.skip(off + 4096));
        push_chars(w, chunk.as_slice());
        w.append("\x1b\\");
        off = off + 4096;
        first = false;
    }
}

/// One half-block cell: pixel (x, y) as foreground, the pixel below it (or
/// itself on the last odd row) as background, drawn as U+2580.
pub open spec fn block_cell(f: Frame, x: int, y: int) -> Seq<char> {
    let (r1, g1, b1, _a1) = px(f, x, y);
    let (r2, g2, b2) = if y + 1 < f.height {
        let (r, g, b, _a) = px(f, x, y + 1);
        (r, g, b)
    } else {
        (r1, g1, b1)
    };
    "\x1b[38;2;"@ + dec(r1 as nat) + ";"@ + dec(g1 as nat) + ";"@ + dec(b1 as nat) + "m\x1b[48;2;"@
        + dec(r2 as nat) + ";"@ + dec(g2 as nat) + ";"@ + dec(b2 as nat) + "m\u{2580}"@
}

/// The first `n` cells of the cell row whose upper pixels are row `y`.
pub open spec fn block_row(f: Frame, y: int, n: nat) -> Seq<char>
    decreases n,
{
    if n == 0 {
        Seq::empty()
    } else {
        block_row(f, y, (n - 1) as nat) + block_cell(f, n - 1, y)
    }
}

/// The first `t` lines of cells (pixel rows 0..2t), each ended by a color
/// reset and a newline.
pub open spec fn blocks_spec(f: Frame, t: nat) -> Seq<char>
    decreases t,
{
    if t == 0 {
        Seq::empty()
    } else {
        blocks_spec(f, (t - 1) as nat) + block_row(f, 2 * (t - 1), f.width as nat) + "\x1b[0m\n"@
    }
}

fn push_block_cell(w: &mut String, frame: &Frame, x: u32, y: u32)
    requires
        frame_fits(*frame),
        x < frame.width,
        y < frame.height,
    ensures
        final(w)@ == old(w)@ + block_cell(*frame, x as int, y as int),
{
    let (r1, g1, b1, _a1) = frame.pixel(x, y);
    let (r2, g2, b2) = if y + 1 < frame.height {
        let (r, g, b, _a) = frame.pixel(x, y + 1);
        (r, g, b)
    } else {
        (r1, g1, b1)
    };
    let ghost w0 = w@;
    w.append("\x1b[38;2;");
    push_decimal(w, r1 as u64);
    w.append(";");
    push_decimal(w, g1 as u64);
    w.append(";");
    push_decimal(w, b1 as u64);
    w.append("m\x1b[48;2;");
    push_decimal(w, r2 as u64);
    w.append(";");
    push_decimal(w, g2 as u64);
    w.append(";");
    push_decimal(w, b2 as u64);
    w.append("m\u{2580}");
    assert(w@ =~= w0 + block_cell(*frame, x as int, y as int));
}

/// Half-block ANSI truecolor. Two pixels per character cell (upper/lower),
/// so the width stays the same and the height halves; 24-bit color codes.
pub fn emit_blocks(w: &mut String, frame: &Frame)
    requires
        frame_fits(*frame),
    ensures
        final(w)@ == old(w)@ + blocks_spec(*frame, ((frame.height + 1) / 2) as nat),
{
    let mut t: u32 = 0;
    let rows: u32 = ((frame.height as u64 + 1) / 2) as u32;
    while t < rows
        invariant
            frame_fits(*frame),
            rows == (frame.height + 1) / 2,
            t <= rows,
            w@ == old(w)@ + blocks_spec(*frame, t as nat),
        decreases rows - t,
    {
        let y = 2 * t;
        let mut x: u32 = 0;
        let ghost w1 = w@;
        while x < frame.width
            invariant
                frame_fits(*frame),
                y < frame.height,
                x <= frame.width,
                w@ == w1 + block_row(*frame, y as int, x as nat),
            decreases frame.width - x,
        {
            push_block_cell(w, frame, x, y);
            x = x + 1;
        }
        w.append("\x1b[0m\n");
        t = t + 1;
        assert(w@ =~= old(w)@ + blocks_spec(*frame, t as nat));
    }
}


/// The corners of the RGB cube with the given level, red varying slowest
/// and blue fastest.
pub open spec fn cube(l: u8) -> Seq<(u8, u8, u8)> {
    seq![(0u8, 0u8, 0u8), (0u8, 0u8, l), (0u8, l, 0u8), (0u8, l, l), (l, 0u8, 0u8), (l, 0u8, l), (l, l, 0u8), (l, l, l)]
}

/// The palette as generated: black, then the cubes of the levels 85, 170
/// and 255.
pub open spec fn raw_palette() -> Seq<(u8, u8, u8)> {
    seq![(0u8, 0u8, 0u8)] + cube(85) + cube(170) + cube(255)
}

/// Whether `c` occurs in `s`.
pub open spec fn has_color(s: Seq<(u8, u8, u8)>, c: (u8, u8, u8)) -> bool
    decreases s.len(),
{
    s.len() > 0 && (s.last() == c || has_color(s.drop_last(), c))
}

/// `s` with each color kept only where it first occurs.
pub open spec fn first_occurrences(s: Seq<(u8, u8, u8)>) -> Seq<(u8, u8, u8)>
    decreases s.len(),
{
    if s.len() == 0 {
        Seq::empty()
    } else {
        let kept = first_occurrences(s.drop_last());
        if has_color(kept, s.last()) {
            kept
        } else {
            kept.push(s.last())
        }
    }
}

/// The sixel palette: black, then for the levels 85, 170 and 255 the
/// corners of the RGB cube with that level, each color once, in the order
/// they are generated (22 colors).
pub open spec fn sixel_palette() -> Seq<(u8, u8, u8)> {
    first_occurrences(raw_palette())
}

proof fn lemma_first_occurrences_nonempty(s: Seq<(u8, u8, u8)>)
    requires
        s.len() > 0,
    ensures
        first_occurrences(s).len() > 0,
    decreases s.len(),
{
    if s.len() > 1 {
        lemma_first_occurrences_nonempty(s.drop_last());
    } else {
        assert(s.drop_last().len() == 0);
        assert(!has_color(first_occurrences(s.drop_last()), s.last()));
    }
}

proof fn lemma_palette_nonempty()
    ensures
        sixel_palette().len() > 0,
{
    lemma_first_occurrences_nonempty(raw_palette());
}

fn cube_level(i: u8, level: u8) -> (res: u8)
    ensures
        res == (if i == 0 { 0u8 } else { level }),
{
    if i == 0 {
        0
    } else {
        level
    }
}

/// Appends the corners of the cube of `level`.
fn push_cube(p: &mut Vec<(u8, u8, u8)>, level: u8)
    ensures
        final(p)@ == old(p)@ + cube(level),
{
    let ghost base = p@;
    let mut ri: u8 = 0;
    while ri < 2
        invariant
            ri <= 2,
            p@ == base + cube(level).take(4 * ri),
        decreases 2 - ri,
    {
        let mut gi: u8 = 0;
        while gi < 2
            invariant
                ri < 2,
                gi <= 2,
                p@ == base + cube(level).take(4 * ri + 2 * gi),
            decreases 2 - gi,
        {
            let mut bi: u8 = 0;
            while bi < 2
                invariant
                    ri < 2,
                    gi < 2,
                    bi <= 2,
                    p@ == base + cube(level).take(4 * ri + 2 * gi + bi),
                decreases 2 - bi,
            {
                let c = (cube_level(ri, level), cube_level(gi, level), cube_level(bi, level));
                let ghost k = 4 * ri + 2 * gi + bi;
                assert(cube(level)[k] == c);
                assert(cube(level).take(k + 1) == cube(level).take(k).push(c));
                p.push(c);
                bi = bi + 1;
            }
            gi = gi + 1;
        }
        ri = ri + 1;
    }
    assert(cube(level).take(8) == cube(level));
}

/// Whether `c` occurs in `v`.
fn contains_color(v: &Vec<(u8, u8, u8)>, c: (u8, u8, u8)) -> (res: bool)
    ensures
        res == has_color(v@, c),
{
    let mut i: usize = 0;
    assert(v@.take(0) == Seq::<(u8, u8, u8)>::empty());
    while i < v.len()
        invariant
            i <= v@.len(),
            !has_color(v@.take(i as int), c),
        decreases v.len() - i,
    {
        assert(v@.take(i + 1).drop_last() == v@.take(i as int));
        assert(v@.take(i + 1).last() == v@[i as int]);
        let (a, b, d) = v[i];
        if a == c.0 && b == c.1 && d == c.2 {
            proof {
                lemma_has_take(v@, c, i + 1);
            }
            return true;
        }
        i = i + 1;
    }
    assert(v@.take(v@.len() as int) == v@);
    false
}

proof fn lemma_has_take(s: Seq<(u8, u8, u8)>, c: (u8, u8, u8), k: int)
    requires
        0 <= k <= s.len(),
        has_color(s.take(k), c),
    ensures
        has_color(s, c),
    decreases s.len() - k,
{
    if k < s.len() {
        assert(s.take(k + 1).drop_last() == s.take(k));
        lemma_has_take(s, c, k + 1);
    } else {
        assert(s.take(k) == s);
    }
}

/// The sixel palette, generated and with repeated colors dropped.
fn palette() -> (res: Vec<(u8, u8, u8)>)
    ensures
        res@ == sixel_palette(),
{
    let mut raw: Vec<(u8, u8, u8)> = Vec::new();
    raw.push((0u8, 0u8, 0u8));
    push_cube(&mut raw, 85);
    push_cube(&mut raw, 170);
    push_cube(&mut raw, 255);
    assert(raw@ =~= raw_palette());
    let mut kept: Vec<(u8, u8, u8)> = Vec::new();
    let mut i: usize = 0;
    assert(raw@.take(0) == Seq::<(u8, u8, u8)>::empty());
    while i < raw.len()
        invariant
            i <= raw@.len(),
            kept@ == first_occurrences(raw@.take(i as int)),
        decreases raw.len() - i,
    {
        let c = raw[i];
        assert(raw@.take(i + 1).drop_last() == raw@.take(i as int));
        assert(raw@.take(i + 1).last() == c);
        if !contains_color(&kept, c) {
            kept.push(c);
        }
        i = i + 1;
    }
    assert(raw@.take(raw@.len() as int) == raw@);
    kept
}

/// A palette channel as a sixel percentage: `c * 100 / 255`, rounded down.
pub open spec fn pct(c: u8) -> nat {
    ((c as nat) * 100) / 255
}

/// The color definitions of the first `k` palette entries.
pub open spec fn palette_header(k: nat) -> Seq<char>
    decreases k,
{
    if k == 0 {
        Seq::empty()
    } else {
        let (r, g, b) = sixel_palette()[k - 1];
        palette_header((k - 1) as nat) + "#"@ + dec((k - 1) as nat) + ";2;"@ + dec(pct(r)) + ";"@
            + dec(pct(g)) + ";"@ + dec(pct(b))
    }
}

/// Squared distance of a palette color from the gray `(c, c, c)`.
pub open spec fn dist(p: (u8, u8, u8), c: int) -> int {
    (p.0 - c) * (p.0 - c) + (p.1 - c) * (p.1 - c) + (p.2 - c) * (p.2 - c)
}

/// Index of the nearest of the first `k` palette colors to gray `c` (the
/// first one on ties), for `k >= 1`.
pub open spec fn nearest_upto(c: int, k: nat) -> int
    decreases k,
{
    if k <= 1 {
        0
    } else {
        let best = nearest_upto(c, (k - 1) as nat);
        if dist(sixel_palette()[k - 1], c) < dist(sixel_palette()[best], c) {
            k - 1
        } else {
            best
        }
    }
}

/// Index of the palette color nearest to gray `c`.
pub open spec fn nearest(c: int) -> int {
    nearest_upto(c, sixel_palette().len())
}

/// The gray level of a pixel: the sum of its thirds.
pub open spec fn luma(p: (u8, u8, u8, u8)) -> int {
    p.0 / 3 + p.1 / 3 + p.2 / 3
}

/// The sixel bits of a column of `k` pixels: the low `k` bits set.
pub open spec fn sixel_byte(k: nat) -> u8
    decreases k,
{
    if k == 0 {
        0
    } else {
        sixel_byte((k - 1) as nat) | (1u8 << ((k - 1) as u8))
    }
}

/// The color changes of the first `k` pixels of column `x` in the band that
/// starts at row `band`, and the current color index (-1: none yet).
pub open spec fn column_fold(f: Frame, band: int, x: int, k: nat) -> (Seq<char>, int)
    decreases k,
{
    if k == 0 {
        (Seq::empty(), -1)
    } else {
        let (s, cur) = column_fold(f, band, x, (k - 1) as nat);
        let dy = k - 1;
        let idx = nearest(luma(px(f, x, band + dy)));
        if cur != idx {
            let s1 = if dy > 0 {
                s + "#"@ + dec(cur as nat)
            } else {
                s
            };
            (s1 + "#"@ + dec(idx as nat), idx)
        } else {
            (s, cur)
        }
    }
}

/// The number of pixel rows in the band starting at row `band`.
pub open spec fn band_rows(f: Frame, band: int) -> nat {
    if f.height - band >= 6 {
        6
    } else {
        (f.height - band) as nat
    }
}

/// One sixel column: its color changes, the column bits, then `$`.
pub open spec fn sixel_column(f: Frame, band: int, x: int) -> Seq<char> {
    let k = band_rows(f, band);
    column_fold(f, band, x, k).0 + seq![sixel_byte(k) as char, '$']
}

/// The first `n` columns of the band starting at row `band`.
pub open spec fn sixel_band(f: Frame, band: int, n: nat) -> Seq<char>
    decreases n,
{
    if n == 0 {
        Seq::empty()
    } else {
        sixel_band(f, band, (n - 1) as nat) + sixel_column(f, band, n - 1)
    }
}

/// The first `t` bands of six rows, each ended by `-`.
pub open spec fn sixel_bands(f: Frame, t: nat) -> Seq<char>
    decreases t,
{
    if t == 0 {
        Seq::empty()
    } else {
        sixel_bands(f, (t - 1) as nat) + sixel_band(f, 6 * (t - 1), f.width as nat) + "-"@
    }
}

/// The sixel image of a frame: header, palette, the bands, terminator.
pub open spec fn sixel_spec(f: Frame) -> Seq<char> {
    "\x1bPq"@ + palette_header(sixel_palette().len()) + sixel_bands(f, ((f.height + 5) / 6) as nat) + "\x1b\\"@
}

fn nearest_index(pal: &Vec<(u8, u8, u8)>, c: u8) -> (res: usize)
    requires
        pal@ == sixel_palette(),
    ensures
        res == nearest(c as int),
        res < sixel_palette().len(),
{
    proof {
        lemma_palette_nonempty();
    }
    let mut best: usize = 0;
    let mut best_d: i32 = i32::MAX;
    let mut i: usize = 0;
    while i < pal.len()
        invariant
            pal@ == sixel_palette(),
            sixel_palette().len() > 0,
            i <= pal@.len(),
            best < pal@.len(),
            i == 0 ==> best == 0 && best_d == i32::MAX,
            i > 0 ==> best == nearest_upto(c as int, i as nat) && best_d == dist(
                sixel_palette()[best as int],
                c as int,
            ),
        decreases pal.len() - i,
    {
        let (pr, pg, pb) = pal[i];
        let dr = pr as i32 - c as i32;
        let dg = pg as i32 - c as i32;
        let db = pb as i32 - c as i32;
        assert(-255 <= dr <= 255 && -255 <= dg <= 255 && -255 <= db <= 255);
        assert(dr * dr <= 65025 && dg * dg <= 65025 && db * db <= 65025 && 0 <= dr * dr && 0 <= dg
            * dg && 0 <= db * db) by (nonlinear_arith)
            requires
                -255 <= dr <= 255,
                -255 <= dg <= 255,
                -255 <= db <= 255,
        ;
        let d = dr * dr + dg * dg + db * db;
        assert(d == dist(sixel_palette()[i as int], c as int));
        if d < best_d {
            best_d = d;
            best = i;
        }
        i = i + 1;
    }
    best
}

fn push_column(w: &mut String, frame: &Frame, pal: &Vec<(u8, u8, u8)>, band: u32, x: u32)
    requires
        frame_fits(*frame),
        pal@ == sixel_palette(),
        band < frame.height,
        x < frame.width,
    ensures
        final(w)@ == old(w)@ + sixel_column(*frame, band as int, x as int),
{
    let k: u32 = if frame.height - band >= 6 {
        6
    } else {
        frame.height - band
    };
    let mut current: Option<usize> = None;
    let mut byte: u8 = 0;
    let mut dy: u32 = 0;
    let ghost w0 = w@;
    while dy < k
        invariant
            frame_fits(*frame),
            pal@ == sixel_palette(),
            band < frame.height,
            x < frame.width,
            k == band_rows(*frame, band as int),
            k <= 6,
            dy <= k,
            w@ == w0 + column_fold(*frame, band as int, x as int, dy as nat).0,
            match current {
                Some(c) => c == column_fold(*frame, band as int, x as int, dy as nat).1 && c < sixel_palette().len(),
                None => -1 == column_fold(*frame, band as int, x as int, dy as nat).1,
            },
            dy > 0 ==> current is Some,
            byte == sixel_byte(dy as nat),
        decreases k - dy,
    {
        let y = band + dy;
        let (r, g, b, _a) = frame.pixel(x, y);
        let q = nearest_index(pal, r / 3 + g / 3 + b / 3);
        let changed = match current {
            Some(c) => c != q,
            None => true,
        };
        if changed {
            if dy > 0 {
                match current {
                    Some(c) => {
                        w.append("#");
                        push_decimal(w, c as u64);
                    },
                    None => {},
                }
            }
            w.append("#");
            push_decimal(w, q as u64);
            current = Some(q);
        }
        byte = byte | (1u8 << (dy as u8));
        dy = dy + 1;
        assert(w@ =~= w0 + column_fold(*frame, band as int, x as int, dy as nat).0);
    }
    let ch = byte as char;
    push_char(w, ch);
    push_char(w, '$');
    assert(w@ =~= w0 + sixel_column(*frame, band as int, x as int));
}

fn percent(c: u8) -> (res: u64)
    ensures
        res == pct(c),
{
    (c as u64) * 100 / 255
}

fn push_palette_header(w: &mut String, pal: &Vec<(u8, u8, u8)>)
    requires
        pal@ == sixel_palette(),
    ensures
        final(w)@ == old(w)@ + palette_header(sixel_palette().len()),
{
    let mut i: usize = 0;
    while i < pal.len()
        invariant
            pal@ == sixel_palette(),
            i <= pal@.len(),
            w@ == old(w)@ + palette_header(i as nat),
        decreases pal.len() - i,
    {
        let (r, g, b) = pal[i];
        w.append("#");
        push_decimal(w, i as u64);
        w.append(";2;");
        push_decimal(w, percent(r));
        w.append(";");
        push_decimal(w, percent(g));
        w.append(";");
        push_decimal(w, percent(b));
        i = i + 1;
        assert(w@ =~= old(w)@ + palette_header(i as nat));
    }
}

/// DEC sixel: a small fixed palette, each pixel mapped by its gray level to
/// the nearest palette color; six rows per band, one character per column.
pub fn emit_sixel(w: &mut String, frame: &Frame)
    requires
        frame_fits(*frame),
    ensures
        final(w)@ == old(w)@ + sixel_spec(*frame),
{
    let pal = palette();
    let ghost w0 = w@;
    w.append("\x1bPq");
    push_palette_header(w, &pal);
    let ghost w1 = w@;
    let bands: u32 = ((frame.height as u64 + 5) / 6) as u32;
    let mut t: u32 = 0;
    while t < bands
        invariant
            frame_fits(*frame),
            pal@ == sixel_palette(),
            bands == (frame.height + 5) / 6,
            t <= bands,
            w@ == w1 + sixel_bands(*frame, t as nat),
        decreases bands - t,
    {
        let band = 6 * t;
        let mut x: u32 = 0;
        let ghost w2 = w@;
        while x < frame.width
            invariant
                frame_fits(*frame),
                pal@ == sixel_palette(),
                band < frame.height,
                x <= frame.width,
                w@ == w2 + sixel_band(*frame, band as int, x as nat),
            decreases frame.width - x,
        {
            push_column(w, frame, &pal, band, x);
            x = x + 1;
        }
        w.append("-");
        t = t + 1;
        assert(w@ =~= w1 + sixel_bands(*frame, t as nat));
    }
    w.append("\x1b\\");
    assert(w@ =~= w0 + sixel_spec(*frame));
}

/// Emit the frame in the selected protocol (nothing for text mode, which
/// the caller handles).
pub open spec fn emit_spec(f: Frame, mode: OutputMode) -> Seq<char> {
    match mode {
        OutputMode::Kitty => kitty_spec(f),
        OutputMode::Sixel => sixel_spec(f),
        OutputMode::Blocks => blocks_spec(f, ((f.height + 1) / 2) as nat),
        OutputMode::Text => Seq::empty(),
    }
}

/// Emit the frame to `w` using the selected protocol.
pub fn emit(w: &mut String, frame: &Frame, mode: OutputMode)
    requires
        mode == OutputMode::Kitty || mode == OutputMode::Text || frame_fits(*frame),
    ensures
        final(w)@ == old(w)@ + emit_spec(*frame, mode),
{
    match mode {
        OutputMode::Kitty => emit_kitty(w, frame),
        OutputMode::Sixel => emit_sixel(w, frame),
        OutputMode::Blocks => emit_blocks(w, frame),
        OutputMode::Text => {
            assert(w@ =~= old(w)@ + Seq::<char>::empty());
        },
    }
}


proof fn lemma_nearest_upto(c: int, k: nat)
    requires
        1 <= k <= sixel_palette().len(),
    ensures
        0 <= nearest_upto(c, k) < k,
        forall|j: int| 0 <= j < k ==> {
            let p = sixel_palette()[nearest_upto(c, k)];
            let q = #[trigger] sixel_palette()[j];
            (p.0 - c) * (p.0 - c) + (p.1 - c) * (p.1 - c) + (p.2 - c) * (p.2 - c)
                <= (q.0 - c) * (q.0 - c) + (q.1 - c) * (q.1 - c) + (q.2 - c) * (q.2 - c)
        },
        forall|j: int| 0 <= j < nearest_upto(c, k) ==> {
            let p = sixel_palette()[nearest_upto(c, k)];
            let q = #[trigger] sixel_palette()[j];
            (p.0 - c) * (p.0 - c) + (p.1 - c) * (p.1 - c) + (p.2 - c) * (p.2 - c)
                < (q.0 - c) * (q.0 - c) + (q.1 - c) * (q.1 - c) + (q.2 - c) * (q.2 - c)
        },
    decreases k,
{
    if k > 1 {
        lemma_nearest_upto(c, (k - 1) as nat);
    }
}

/// The sixel color of a gray level is a palette color at least as close to
/// that gray (squared distance over the three channels) as any other, and
/// the first such in palette order.
pub proof fn law_nearest_is_closest(c: int)
    ensures
        0 <= nearest(c) < sixel_palette().len(),
        forall|j: int| 0 <= j < sixel_palette().len() ==> {
            let p = sixel_palette()[nearest(c)];
            let q = #[trigger] sixel_palette()[j];
            (p.0 - c) * (p.0 - c) + (p.1 - c) * (p.1 - c) + (p.2 - c) * (p.2 - c)
                <= (q.0 - c) * (q.0 - c) + (q.1 - c) * (q.1 - c) + (q.2 - c) * (q.2 - c)
        },
        forall|j: int| 0 <= j < nearest(c) ==> {
            let p = sixel_palette()[nearest(c)];
            let q = #[trigger] sixel_palette()[j];
            (p.0 - c) * (p.0 - c) + (p.1 - c) * (p.1 - c) + (p.2 - c) * (p.2 - c)
                < (q.0 - c) * (q.0 - c) + (q.1 - c) * (q.1 - c) + (q.2 - c) * (q.2 - c)
        },
{
    lemma_palette_nonempty();
    lemma_nearest_upto(c, sixel_palette().len());
}

/// In a sixel column the color in force after `k` pixels is the palette
/// color nearest to the gray level of the `k`-th pixel, that gray level
/// being the sum of the thirds of its red, green and blue; the first pixel
/// writes its color selector.
pub proof fn law_sixel_pixel_color(f: Frame, band: int, x: int, k: nat)
    requires
        k >= 1,
    ensures
        ({
            let p = px(f, x, band + k - 1);
            column_fold(f, band, x, k).1 == nearest(p.0 / 3 + p.1 / 3 + p.2 / 3)
        }),
        ({
            let p = px(f, x, band);
            let g = nearest(p.0 / 3 + p.1 / 3 + p.2 / 3);
            column_fold(f, band, x, 1) == ("#"@ + dec(g as nat), g)
        }),
{
    let p0 = px(f, x, band);
    law_nearest_is_closest(p0.0 / 3 + p0.1 / 3 + p0.2 / 3);
    assert(column_fold(f, band, x, 0) == (Seq::<char>::empty(), -1int));
    assert(Seq::<char>::empty() + "#"@ + dec(nearest(luma(p0)) as nat) == "#"@ + dec(nearest(luma(p0)) as nat));
}

/// A half-block cell draws the pixel `(x, y)` as its foreground and the
/// pixel below it as its background (the pixel itself on a last odd row),
/// each as a 24-bit color of its red, green and blue.
pub proof fn law_block_cell_colors(f: Frame, x: int, y: int)
    ensures
        ({
            let top = px(f, x, y);
            let low = if y + 1 < f.height { px(f, x, y + 1) } else { top };
            block_cell(f, x, y) == "\x1b[38;2;"@ + dec(top.0 as nat) + ";"@ + dec(top.1 as nat) + ";"@
                + dec(top.2 as nat) + "m\x1b[48;2;"@ + dec(low.0 as nat) + ";"@ + dec(low.1 as nat) + ";"@
                + dec(low.2 as nat) + "m\u{2580}"@
        }),
{
}


/// Each output mode uses its own encoder: kitty for `Kitty`, sixel for
/// `Sixel`, half blocks (one line per two pixel rows) for `Blocks`, and
/// nothing for `Text`.
pub proof fn law_emit_modes(f: Frame)
    ensures
        emit_spec(f, OutputMode::Kitty) == kitty_chunks(kitty_keys(f), base64(f.pixels@)),
        emit_spec(f, OutputMode::Sixel) == sixel_spec(f),
        emit_spec(f, OutputMode::Blocks) == blocks_spec(f, ((f.height + 1) / 2) as nat),
        emit_spec(f, OutputMode::Text).len() == 0,
{
}

} // verus!
