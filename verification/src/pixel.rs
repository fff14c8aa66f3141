//! A single RGBA sample and the chunk that encodes it after another.

use crate::consts::{QOI_OP_DIFF, QOI_OP_LUMA, QOI_OP_RGB, QOI_OP_RGBA};
use crate::error::Error;
use crate::utils::{wrote, Writer};
use vstd::prelude::*;

verus! {

/// One sample: four independent 8-bit channels.
#[derive(Copy, Clone, PartialEq, Eq, Debug, Structural)]
pub struct Pixel {
    pub r: u8,
    pub g: u8,
    pub b: u8,
    pub a: u8,
}

/// The residue of `x` modulo 256, as a byte.
pub open spec fn wrap8(x: int) -> u8 {
    (x % 256) as u8
}

/// The slot of the colour cache that a pixel belongs to:
/// `(3 r + 5 g + 7 b + 11 a) mod 64`.
pub open spec fn hash_of(px: Pixel) -> u8 {
    ((3 * px.r + 5 * px.g + 7 * px.b + 11 * px.a) % 64) as u8
}

/// How far the channel value `cur` lies from `prev` going round modulo 256,
/// taken in `-128 ..= 127`.
pub open spec fn channel_delta(cur: u8, prev: u8) -> int {
    let d = cur - prev;
    if d > 127 {
        d - 256
    } else if d < -128 {
        d + 256
    } else {
        d
    }
}

/// Whether `px` can follow `prev` as a diff chunk: alpha is the same and
/// each colour channel moved by `-2 ..= 1`.
pub open spec fn fits_diff(px: Pixel, prev: Pixel) -> bool {
    &&& px.a == prev.a
    &&& -2 <= channel_delta(px.r, prev.r) <= 1
    &&& -2 <= channel_delta(px.g, prev.g) <= 1
    &&& -2 <= channel_delta(px.b, prev.b) <= 1
}

/// Whether `px` can follow `prev` as a luma chunk: alpha is the same, green
/// moved by `-32 ..= 31`, and red and blue moved by what green moved and
/// `-8 ..= 7` more.
pub open spec fn fits_luma(px: Pixel, prev: Pixel) -> bool {
    let dg = channel_delta(px.g, prev.g);
    &&& px.a == prev.a
    &&& -32 <= dg <= 31
    &&& -8 <= channel_delta(px.r, prev.r) - dg <= 7
    &&& -8 <= channel_delta(px.b, prev.b) - dg <= 7
}

/// The one byte of a diff chunk: the tag `01` and the three differences,
/// each biased by 2, in two bits each.
pub open spec fn diff_chunk(px: Pixel, prev: Pixel) -> Seq<u8> {
    seq![
        (QOI_OP_DIFF + 16 * (channel_delta(px.r, prev.r) + 2) + 4 * (channel_delta(px.g, prev.g)
            + 2) + (channel_delta(px.b, prev.b) + 2)) as u8,
    ]
}

/// The two bytes of a luma chunk: the tag `10` with the green difference
/// biased by 32, then what red and blue moved beyond green, each biased by
/// 8, in four bits each.
pub open spec fn luma_chunk(px: Pixel, prev: Pixel) -> Seq<u8> {
    let dg = channel_delta(px.g, prev.g);
    seq![
        (QOI_OP_LUMA + dg + 32) as u8,
        (16 * (channel_delta(px.r, prev.r) - dg + 8) + (channel_delta(px.b, prev.b) - dg
            + 8)) as u8,
    ]
}

/// The four bytes of a literal chunk without alpha.
pub open spec fn rgb_chunk(px: Pixel) -> Seq<u8> {
    seq![QOI_OP_RGB, px.r, px.g, px.b]
}

/// The five bytes of a literal chunk with alpha.
pub open spec fn rgba_chunk(px: Pixel) -> Seq<u8> {
    seq![QOI_OP_RGBA, px.r, px.g, px.b, px.a]
}

/// The chunk that encodes `px` by its value right after `prev`: a literal
/// with alpha if alpha changed; otherwise the shortest of diff, luma and
/// literal without alpha that can express the change.
pub open spec fn chunk_of(px: Pixel, prev: Pixel) -> Seq<u8> {
    if px.a != prev.a {
        rgba_chunk(px)
    } else if fits_diff(px, prev) {
        diff_chunk(px, prev)
    } else if fits_luma(px, prev) {
        luma_chunk(px, prev)
    } else {
        rgb_chunk(px)
    }
}

/// The pixel that follows `px` when a diff chunk with tag byte `b1` is read:
/// each colour channel moves by its two-bit field less two, modulo 256.
pub open spec fn diff_applied(px: Pixel, b1: u8) -> Pixel {
    Pixel {
        r: wrap8(px.r + (b1 / 16) % 4 - 2),
        g: wrap8(px.g + (b1 / 4) % 4 - 2),
        b: wrap8(px.b + b1 % 4 - 2),
        a: px.a,
    }
}

/// The pixel that follows `px` when a luma chunk with the bytes `b1`, `b2`
/// is read: green moves by the six-bit field of `b1` less 32, red and blue
/// by that much and by their four-bit field of `b2` less 8, modulo 256.
pub open spec fn luma_applied(px: Pixel, b1: u8, b2: u8) -> Pixel {
    let vg = b1 % 64 - 32;
    Pixel {
        r: wrap8(px.r + vg + b2 / 16 - 8),
        g: wrap8(px.g + vg),
        b: wrap8(px.b + vg + b2 % 16 - 8),
        a: px.a,
    }
}

/// The residue modulo 256 of a number that lies `k` turns away from a byte.
proof fn lemma_wrap8_value(x: int, k: int)
    requires
        0 <= x - 256 * k < 256,
    ensures
        wrap8(x) == x - 256 * k,
{
    vstd::arithmetic::div_mod::lemma_fundamental_div_mod_converse(x, 256, k, x - 256 * k);
}

/// Wrapping addition and subtraction of bytes are addition and subtraction
/// modulo 256.
pub proof fn lemma_wrapping_is_wrap8(x: u8, y: u8)
    ensures
        vstd::wrapping::u8_specs::wrapping_add(x, y) == wrap8(x + y),
        vstd::wrapping::u8_specs::wrapping_sub(x, y) == wrap8(x - y),
{
    if x + y > 255 {
        vstd::arithmetic::div_mod::lemma_fundamental_div_mod_converse(x + y, 256, 1, x + y - 256);
    } else {
        vstd::arithmetic::div_mod::lemma_fundamental_div_mod_converse(x + y, 256, 0, x + y);
    }
    if x - y < 0 {
        vstd::arithmetic::div_mod::lemma_fundamental_div_mod_converse(x - y, 256, -1, x - y + 256);
    } else {
        vstd::arithmetic::div_mod::lemma_fundamental_div_mod_converse(x - y, 256, 0, x - y);
    }
}

/// Reducing a term modulo 256 before adding to it changes nothing modulo 256.
pub proof fn lemma_wrap8_absorb(x: int, y: int)
    ensures
        wrap8(wrap8(x) + y) == wrap8(x + y),
        wrap8(y + wrap8(x)) == wrap8(x + y),
        wrap8(wrap8(x) - y) == wrap8(x - y),
        wrap8(y - wrap8(x)) == wrap8(y - x),
{
    vstd::arithmetic::div_mod::lemma_fundamental_div_mod(x, 256);
    vstd::arithmetic::div_mod::lemma_mod_multiples_vanish(x / 256, x % 256 + y, 256);
    vstd::arithmetic::div_mod::lemma_mod_multiples_vanish(x / 256, x % 256 - y, 256);
    vstd::arithmetic::div_mod::lemma_mod_multiples_vanish(-(x / 256), y - x % 256, 256);
    assert(256 * (x / 256) + (x % 256 + y) == x + y);
    assert(256 * (x / 256) + (x % 256 - y) == x - y);
    assert(256 * (-(x / 256)) + (y - x % 256) == y - x) by (nonlinear_arith)
        requires
            x == 256 * (x / 256) + x % 256,
    ;
}

/// Adding `d` and then taking `k` away, each modulo 256, is adding `d - k`
/// modulo 256.
proof fn lemma_add_then_sub(c: u8, d: u8, k: u8)
    ensures
        vstd::wrapping::u8_specs::wrapping_sub(vstd::wrapping::u8_specs::wrapping_add(c, d), k)
            == wrap8(c + d - k),
{
    lemma_wrapping_is_wrap8(c, d);
    lemma_wrapping_is_wrap8(vstd::wrapping::u8_specs::wrapping_add(c, d), k);
    lemma_wrap8_absorb(c + d, k as int);
}

/// Moving a channel from `prev` by how far `cur` lies from it arrives at
/// `cur`.
proof fn lemma_delta_applied(cur: u8, prev: u8)
    ensures
        wrap8(prev + channel_delta(cur, prev)) == cur,
{
    let d = cur - prev;
    if d > 127 {
        lemma_wrap8_value(prev + channel_delta(cur, prev), -1);
    } else if d < -128 {
        lemma_wrap8_value(prev + channel_delta(cur, prev), 1);
    } else {
        lemma_wrap8_value(prev + channel_delta(cur, prev), 0);
    }
}

/// The bit fields of a chunk byte, in arithmetic terms.
proof fn lemma_fields(x: u8)
    by (bit_vector)
    ensures
        (x >> 4) & 0x03 == (x / 16) % 4,
        (x >> 2) & 0x03 == (x / 4) % 4,
        x & 0x03 == x % 4,
        x & 0x3f == x % 64,
        (x >> 4) & 0x0f == x / 16,
        x & 0x0f == x % 16,
{
}

/// The tests and the packing of [`Pixel::encode_into`], in arithmetic terms.
proof fn lemma_packing(x: u8, y: u8, z: u8)
    by (bit_vector)
    ensures
        (x | 63 == 63) <==> x < 64,
        (x | y | z | 3 == 3) <==> (x < 4 && y < 4 && z < 4),
        (x | y | 15 == 15) <==> (x < 16 && y < 16),
        x < 4 && y < 4 && z < 4 ==> 0x40 | (x << 4) | (y << 2) | z == 0x40 + 16 * x + 4 * y + z,
        x < 64 ==> 0x80 | x == 0x80 + x,
        x < 16 && y < 16 ==> (x << 4) | y == 16 * x + y,
{
}

/// A byte difference taken modulo 256 and biased by `bias` lies under
/// `2 * bias` exactly when the signed difference lies in `-bias .. bias`,
/// and is then the signed difference plus `bias`.
proof fn lemma_biased(cur: u8, prev: u8, bias: u8)
    requires
        bias <= 64,
    ensures
        ({
            let v = vstd::wrapping::u8_specs::wrapping_sub(cur, prev);
            let biased = vstd::wrapping::u8_specs::wrapping_add(v, bias);
            let d = channel_delta(cur, prev);
            &&& v == wrap8(d)
            &&& biased < 2 * bias <==> -bias <= d < bias
            &&& biased < 2 * bias ==> biased == d + bias
        }),
{
}

/// What red or blue moved beyond green, taken modulo 256 and biased by 8,
/// lies under 16 exactly when the signed surplus lies in `-8 ..= 7`, and is
/// then the surplus plus 8.
proof fn lemma_biased_surplus(cur: u8, prev: u8, g: u8, prev_g: u8)
    requires
        -32 <= channel_delta(g, prev_g) <= 31,
    ensures
        ({
            let v = vstd::wrapping::u8_specs::wrapping_sub(cur, prev);
            let vg = vstd::wrapping::u8_specs::wrapping_sub(g, prev_g);
            let biased = vstd::wrapping::u8_specs::wrapping_add(
                vstd::wrapping::u8_specs::wrapping_sub(v, vg),
                8,
            );
            let surplus = channel_delta(cur, prev) - channel_delta(g, prev_g);
            &&& biased < 16 <==> -8 <= surplus <= 7
            &&& biased < 16 ==> biased == surplus + 8
        }),
{
}

/// `bytemuck::cast` between two types of one size reinterprets the bits of
/// its argument; from `[u8; 4]` to `[u8; 4]` it therefore hands back the
/// same four bytes in the same order. The sizes agree, so it cannot panic.
#[verifier::external_body]
fn cast_channels(channels: [u8; 4]) -> (bytes: [u8; 4])
    ensures
        bytes@ == channels@,
{
    bytemuck::cast(channels)
}

/// The two masked halves of a little-endian pixel word, the upper one
/// moved up by 32 bits, put each channel in a lane of its own.
proof fn lemma_hash_lanes(r: u8, g: u8, b: u8, a: u8, v: u64)
    by (bit_vector)
    requires
        v == r as u64 + 0x100 * (g as u64) + 0x1_0000 * (b as u64) + 0x100_0000 * (a as u64),
    ensures
        ((v & 0xff00_ff00) << 32) | (v & 0x00ff_00ff) == r as u64 + 0x1_0000 * (b as u64)
            + 0x100_0000_0000 * (g as u64) + 0x100_0000_0000_0000 * (a as u64),
{
}

/// The top byte of a 64-bit word, and the low six bits of a byte, in
/// arithmetic terms.
proof fn lemma_hash_top(p: u64)
    by (bit_vector)
    ensures
        p >> 56 == p / 0x100_0000_0000_0000,
        p >> 56 < 0x100,
        ((p >> 56) as u8) & 63 == (p >> 56) % 64,
{
}

/// The product of the four lanes with the multiplier, reduced to 64 bits,
/// has the weighted sum of the channels in its top byte: what lies below
/// that byte never carries into it.
proof fn lemma_hash_product(r: int, g: int, b: int, a: int)
    requires
        0 <= r < 256,
        0 <= g < 256,
        0 <= b < 256,
        0 <= a < 256,
    ensures
        (((r + 0x1_0000 * b + 0x100_0000_0000 * g + 0x100_0000_0000_0000 * a)
            * 0x0300_0700_0005_000b) % 0x1_0000_0000_0000_0000) / 0x100_0000_0000_0000 == (3 * r
            + 5 * g + 7 * b + 11 * a) % 256,
{
    let s = r + 0x1_0000 * b + 0x100_0000_0000 * g + 0x100_0000_0000_0000 * a;
    let t = 3 * r + 5 * g + 7 * b + 11 * a;
    let low = 11 * r + 0x1_0000 * (5 * r + 11 * b) + 0x1_0000_0000 * (5 * b) + 0x100_0000_0000 * (
    7 * r + 11 * g);
    let high = 0x100 * (3 * b + 5 * a) + 0x1_0000 * (7 * g) + 0x1_0000_0000 * (3 * g + 7 * a)
        + 0x1_0000_0000_0000 * (3 * a);
    let product = s * 0x0300_0700_0005_000b;
    assert(product == low + 0x100_0000_0000_0000 * t + 0x1_0000_0000_0000_0000 * high);
    let kept = low + 0x100_0000_0000_0000 * (t % 256);
    assert(t == 256 * (t / 256) + t % 256) by {
        vstd::arithmetic::div_mod::lemma_fundamental_div_mod(t, 256);
    }
    assert(0 <= t % 256 < 256);
    assert(0 <= low < 0x100_0000_0000_0000);
    assert(product == (t / 256 + high) * 0x1_0000_0000_0000_0000 + kept);
    vstd::arithmetic::div_mod::lemma_fundamental_div_mod_converse(
        product,
        0x1_0000_0000_0000_0000,
        t / 256 + high,
        kept,
    );
    vstd::arithmetic::div_mod::lemma_fundamental_div_mod_converse(
        kept,
        0x100_0000_0000_0000,
        t % 256,
        low,
    );
}

/// The multiplicative mix behind [`Pixel::hash_index`] computes [`hash_of`].
proof fn lemma_hash_mix(px: Pixel, v: u64, h: u8)
    requires
        v == px.r + 0x100 * px.g + 0x1_0000 * px.b + 0x100_0000 * px.a,
        h == ((vstd::wrapping::u64_specs::wrapping_mul(
            ((v & 0xff00_ff00) << 32) | (v & 0x00ff_00ff),
            0x0300_0700_0005_000b_u64,
        ) >> 56) as u8) & 63,
    ensures
        h == hash_of(px),
{
    let s = ((v & 0xff00_ff00) << 32) | (v & 0x00ff_00ff);
    lemma_hash_lanes(px.r, px.g, px.b, px.a, v);
    let p = vstd::wrapping::u64_specs::wrapping_mul(s, 0x0300_0700_0005_000b_u64);
    lemma_hash_top(p);
    lemma_hash_product(px.r as int, px.g as int, px.b as int, px.a as int);
    let t = 3 * px.r + 5 * px.g + 7 * px.b + 11 * px.a;
    assert(p >> 56 == t % 256);
    assert((t % 256) % 64 == t % 64) by {
        vstd::arithmetic::div_mod::lemma_mod_mod(t, 64, 4);
    }
}

impl Pixel {
    /// The pixel with all four channels zero.
    pub fn new() -> (px: Pixel)
        ensures
            px == (Pixel { r: 0, g: 0, b: 0, a: 0 }),
    {
        Pixel { r: 0, g: 0, b: 0, a: 0 }
    }

    /// Reads the four channels from `s`, in the order red, green, blue, alpha.
    pub fn read(&mut self, s: &[u8])
        requires
            s@.len() == 4,
        ensures
            *final(self) == (Pixel { r: s@[0], g: s@[1], b: s@[2], a: s@[3] }),
    {
        self.r = s[0];
        self.g = s[1];
        self.b = s[2];
        self.a = s[3];
    }

    /// Overwrites this pixel with `px`.
    pub fn update(&mut self, px: Pixel)
        ensures
            *final(self) == px,
    {
        self.r = px.r;
        self.g = px.g;
        self.b = px.b;
        self.a = px.a;
    }

    /// Sets the colour channels and keeps alpha.
    pub fn update_rgb(&mut self, r: u8, g: u8, b: u8)
        ensures
            *final(self) == (Pixel { r, g, b, a: old(self).a }),
    {
        self.r = r;
        self.g = g;
        self.b = b;
    }

    /// Sets all four channels.
    pub fn update_rgba(&mut self, r: u8, g: u8, b: u8, a: u8)
        ensures
            *final(self) == (Pixel { r, g, b, a }),
    {
        self.r = r;
        self.g = g;
        self.b = b;
        self.a = a;
    }

    /// Applies the three differences of a diff chunk whose tag byte is `b1`.
    pub fn update_diff(&mut self, b1: u8)
        ensures
            *final(self) == diff_applied(*old(self), b1),
    {
        let (dr, dg, db) = ((b1 >> 4) & 0x03, (b1 >> 2) & 0x03, b1 & 0x03);
        proof {
            lemma_fields(b1);
            lemma_add_then_sub(self.r, dr, 2);
            lemma_add_then_sub(self.g, dg, 2);
            lemma_add_then_sub(self.b, db, 2);
        }
        self.r = self.r.wrapping_add(dr).wrapping_sub(2);
        self.g = self.g.wrapping_add(dg).wrapping_sub(2);
        self.b = self.b.wrapping_add(db).wrapping_sub(2);
    }

    /// Applies the differences of a luma chunk whose two bytes are `b1`, `b2`.
    pub fn update_luma(&mut self, b1: u8, b2: u8)
        ensures
            *final(self) == luma_applied(*old(self), b1, b2),
    {
        let (m, hi, lo) = (b1 & 0x3f, (b2 >> 4) & 0x0f, b2 & 0x0f);
        let vg = m.wrapping_sub(32);
        let vg_8 = vg.wrapping_sub(8);
        let vr = vg_8.wrapping_add(hi);
        let vb = vg_8.wrapping_add(lo);
        proof {
            lemma_fields(b1);
            lemma_fields(b2);
            lemma_wrapping_is_wrap8(m, 32);
            lemma_wrapping_is_wrap8(vg, 8);
            lemma_wrap8_absorb(m - 32, 8);
            assert(vg_8 == wrap8(m - 40));
            lemma_wrapping_is_wrap8(vg_8, hi);
            lemma_wrapping_is_wrap8(vg_8, lo);
            lemma_wrap8_absorb(m - 40, hi as int);
            lemma_wrap8_absorb(m - 40, lo as int);
            assert(vr == wrap8(m - 40 + hi));
            assert(vb == wrap8(m - 40 + lo));
            lemma_wrapping_is_wrap8(self.r, vr);
            lemma_wrapping_is_wrap8(self.g, vg);
            lemma_wrapping_is_wrap8(self.b, vb);
            lemma_wrap8_absorb(m - 40 + hi, self.r as int);
            lemma_wrap8_absorb(m - 32, self.g as int);
            lemma_wrap8_absorb(m - 40 + lo, self.b as int);
        }
        self.r = self.r.wrapping_add(vr);
        self.g = self.g.wrapping_add(vg);
        self.b = self.b.wrapping_add(vb);
    }

    /// Writes to `buf` the chunk that encodes this pixel by its value right
    /// after `px_prev`, and hands the sink back.
    pub fn encode_into<W: Writer>(&self, px_prev: Pixel, buf: W) -> (r: Result<W, Error>)
        ensures
            wrote(buf, chunk_of(*self, px_prev), r),
    {
        if self.a() == px_prev.a {
            let vg = self.g().wrapping_sub(px_prev.g());
            let vg_32 = vg.wrapping_add(32);
            proof {
                lemma_biased(self.g, px_prev.g, 32);
                lemma_packing(vg_32, 0, 0);
            }
            if vg_32 | 63 == 63 {
                let vr = self.r().wrapping_sub(px_prev.r());
                let vb = self.b().wrapping_sub(px_prev.b());
                let vg_r = vr.wrapping_sub(vg);
                let vg_b = vb.wrapping_sub(vg);
                let (vr_2, vg_2, vb_2) = (
                    vr.wrapping_add(2),
                    vg.wrapping_add(2),
                    vb.wrapping_add(2),
                );
                proof {
                    lemma_biased(self.r, px_prev.r, 2);
                    lemma_biased(self.g, px_prev.g, 2);
                    lemma_biased(self.b, px_prev.b, 2);
                    lemma_packing(vr_2, vg_2, vb_2);
                }
                if vr_2 | vg_2 | vb_2 | 3 == 3 {
                    let byte = QOI_OP_DIFF | (vr_2 << 4) | (vg_2 << 2) | vb_2;
                    assert(chunk_of(*self, px_prev) == seq![byte]);
                    assert(buf.written().push(byte) == buf.written() + seq![byte]);
                    buf.write_one(byte)
                } else {
                    let (vg_r_8, vg_b_8) = (vg_r.wrapping_add(8), vg_b.wrapping_add(8));
                    proof {
                        lemma_biased_surplus(self.r, px_prev.r, self.g, px_prev.g);
                        lemma_biased_surplus(self.b, px_prev.b, self.g, px_prev.g);
                        lemma_packing(vg_r_8, vg_b_8, 0);
                    }
                    if vg_r_8 | vg_b_8 | 15 == 15 {
                        let bytes = [QOI_OP_LUMA | vg_32, (vg_r_8 << 4) | vg_b_8];
                        assert(chunk_of(*self, px_prev) == bytes@);
                        buf.write_many(&bytes)
                    } else {
                        let bytes = [QOI_OP_RGB, self.r(), self.g(), self.b()];
                        assert(chunk_of(*self, px_prev) == bytes@);
                        buf.write_many(&bytes)
                    }
                }
            } else {
                let bytes = [QOI_OP_RGB, self.r(), self.g(), self.b()];
                assert(chunk_of(*self, px_prev) == bytes@);
                buf.write_many(&bytes)
            }
        } else {
            let bytes = [QOI_OP_RGBA, self.r(), self.g(), self.b(), self.a()];
            assert(chunk_of(*self, px_prev) == bytes@);
            buf.write_many(&bytes)
        }
    }

    /// Adds `r`, `g` and `b` to the colour channels, modulo 256.
    pub fn rgb_add(&mut self, r: u8, g: u8, b: u8)
        ensures
            *final(self) == (Pixel {
                r: wrap8(old(self).r + r),
                g: wrap8(old(self).g + g),
                b: wrap8(old(self).b + b),
                a: old(self).a,
            }),
    {
        self.r = self.r.wrapping_add(r);
        self.g = self.g.wrapping_add(g);
        self.b = self.b.wrapping_add(b);
    }

    /// A copy of this pixel with all four channels.
    pub fn as_rgba(self) -> (px: Pixel)
        ensures
            px == self,
    {
        let mut out = Pixel::new();
        out.r = self.r;
        out.g = self.g;
        out.b = self.b;
        out.a = self.a;
        out
    }

    /// The red channel.
    pub fn r(self) -> (v: u8)
        ensures
            v == self.r,
    {
        self.r
    }

    /// The green channel.
    pub fn g(self) -> (v: u8)
        ensures
            v == self.g,
    {
        self.g
    }

    /// The blue channel.
    pub fn b(self) -> (v: u8)
        ensures
            v == self.b,
    {
        self.b
    }

    /// The alpha channel.
    pub fn a(self) -> (v: u8)
        ensures
            v == self.a,
    {
        self.a
    }

    /// This pixel with its alpha channel replaced by `value`.
    pub fn with_a(self, value: u8) -> (px: Pixel)
        ensures
            px == (Pixel { a: value, ..self }),
    {
        let mut px = self;
        px.a = value;
        px
    }

    /// The slot of the colour cache that this pixel belongs to.
    pub fn hash_index(self) -> (h: u8)
        ensures
            h == hash_of(self),
            h < 64,
    {
        let bytes = cast_channels([self.r, self.g, self.b, self.a]);
        let v = (bytes[0] as u32 + 0x100 * (bytes[1] as u32) + 0x1_0000 * (bytes[2] as u32)
            + 0x100_0000 * (bytes[3] as u32)) as u64;
        let s = ((v & 0xff00_ff00) << 32) | (v & 0x00ff_00ff);
        let h = (s.wrapping_mul(0x0300_0700_0005_000b_u64) >> 56) as u8 & 63;
        proof {
            lemma_hash_mix(self, v, h);
        }
        h
    }
}

impl Default for Pixel {
    /// The pixel with all four channels zero.
    fn default() -> (px: Pixel)
        ensures
            px == (Pixel { r: 0, g: 0, b: 0, a: 0 }),
    {
        Pixel::new()
    }
}

impl From<Pixel> for [u8; 4] {
    /// The four channels in the order red, green, blue, alpha.
    fn from(px: Pixel) -> (bytes: [u8; 4]) {
        [px.r, px.g, px.b, px.a]
    }
}

impl vstd::std_specs::convert::FromSpecImpl<Pixel> for [u8; 4] {
    open spec fn obeys_from_spec() -> bool {
        true
    }

    open spec fn from_spec(px: Pixel) -> [u8; 4] {
        [px.r, px.g, px.b, px.a]
    }
}

/// A diff chunk read after `prev` gives back the pixel it was made for.
pub proof fn lemma_diff_round_trip(px: Pixel, prev: Pixel)
    requires
        fits_diff(px, prev),
    ensures
        diff_chunk(px, prev)[0] / 64 == 1,
        diff_applied(prev, diff_chunk(px, prev)[0]) == px,
{
    let dr = channel_delta(px.r, prev.r);
    let dg = channel_delta(px.g, prev.g);
    let db = channel_delta(px.b, prev.b);
    let b1 = diff_chunk(px, prev)[0];
    assert(b1 == 0x40 + 16 * (dr + 2) + 4 * (dg + 2) + (db + 2));
    assert((b1 / 16) % 4 == dr + 2 && (b1 / 4) % 4 == dg + 2 && b1 % 4 == db + 2);
    lemma_delta_applied(px.r, prev.r);
    lemma_delta_applied(px.g, prev.g);
    lemma_delta_applied(px.b, prev.b);
}

/// A luma chunk read after `prev` gives back the pixel it was made for.
pub proof fn lemma_luma_round_trip(px: Pixel, prev: Pixel)
    requires
        fits_luma(px, prev),
    ensures
        luma_chunk(px, prev)[0] / 64 == 2,
        luma_applied(prev, luma_chunk(px, prev)[0], luma_chunk(px, prev)[1]) == px,
{
    let dr = channel_delta(px.r, prev.r);
    let dg = channel_delta(px.g, prev.g);
    let db = channel_delta(px.b, prev.b);
    let b1 = luma_chunk(px, prev)[0];
    let b2 = luma_chunk(px, prev)[1];
    assert(b1 == 0x80 + dg + 32);
    assert(b2 == 16 * (dr - dg + 8) + (db - dg + 8));
    assert(b1 % 64 == dg + 32);
    assert(b2 / 16 == dr - dg + 8 && b2 % 16 == db - dg + 8);
    lemma_delta_applied(px.r, prev.r);
    lemma_delta_applied(px.g, prev.g);
    lemma_delta_applied(px.b, prev.b);
}

} // verus!
