//! The binary PPM encoder: an ASCII header `P6\n<width> <height>\n255\n`
//! followed by one byte per channel, three channels per pixel in row-major
//! order. Each channel is clamped to the unit interval and quantized to a
//! byte by truncation.

use vstd::prelude::*;
use vstd::arithmetic::div_mod::lemma_fundamental_div_mod;
use vstd::arithmetic::div_mod::lemma_multiply_divide_lt;
use crate::fixed::spec_clamp;
use crate::vec3::Vec3;
use crate::framebuffer::Framebuffer;

verus! {

/// Clamp a fixed-point channel to `[0, SCALE]`, scale to `[0, 255]` and
/// truncate: the byte written for that channel.
pub open spec fn spec_quantize(c: int) -> int {
    spec_clamp(c) * 255 / 65536
}

/// The decimal digits of `n` as ASCII bytes, most significant first.
pub open spec fn dec_digits(n: nat) -> Seq<u8>
    decreases n,
{
    if n < 10 {
        seq![(48 + n) as u8]
    } else {
        dec_digits(n / 10).push((48 + n % 10) as u8)
    }
}

/// The PPM header: `P6\n`, the width in decimal, a space, the height in
/// decimal, then `\n255\n`.
pub open spec fn header_bytes(w: nat, h: nat) -> Seq<u8> {
    seq![80u8, 54u8, 10u8] + dec_digits(w) + seq![32u8] + dec_digits(h) + seq![
        10u8,
        50u8,
        53u8,
        53u8,
        10u8,
    ]
}

/// The three bytes one pixel encodes to: red, green, blue.
pub open spec fn pixel_bytes(p: Vec3) -> Seq<u8> {
    seq![
        spec_quantize(p.x as int) as u8,
        spec_quantize(p.y as int) as u8,
        spec_quantize(p.z as int) as u8,
    ]
}

/// The raster: the pixels' bytes in order, three per pixel.
pub open spec fn body_bytes(ps: Seq<Vec3>) -> Seq<u8>
    decreases ps.len(),
{
    if ps.len() == 0 {
        Seq::empty()
    } else {
        body_bytes(ps.drop_last()) + pixel_bytes(ps.last())
    }
}

/// The raster holds exactly three bytes per pixel.
pub proof fn lemma_body_bytes_len(ps: Seq<Vec3>)
    ensures
        body_bytes(ps).len() == 3 * ps.len(),
    decreases ps.len(),
{
    if ps.len() > 0 {
        lemma_body_bytes_len(ps.drop_last());
    }
}

/// Quantize one channel to a byte. A value of 0 or below gives byte 0, a
/// value of `SCALE` (1.0) or above gives byte 255; in between the scaled
/// value is truncated, never rounded.
pub fn quantize(c: i64) -> (r: u8)
    ensures
        r as int == spec_quantize(c as int),
        c <= 0 ==> r == 0,
        c >= 65536 ==> r == 255,
{
    let cl: i64 = if c < 0 {
        0
    } else if c > 65536 {
        65536
    } else {
        c
    };
    assert(cl as int == spec_clamp(c as int));
    (((cl as u64) * 255) / 65536) as u8
}

/// Append the decimal digits of `n`, most significant first.
pub fn push_decimal(out: &mut Vec<u8>, n: u64)
    ensures
        final(out)@ == old(out)@ + dec_digits(n as nat),
    decreases n,
{
    if n < 10 {
        out.push(48 + n as u8);
        assert(final(out)@ =~= old(out)@ + dec_digits(n as nat));
    } else {
        push_decimal(out, n / 10);
        out.push(48 + (n % 10) as u8);
        assert((48 + (n % 10) as u8) as u8 == (48 + (n as nat) % 10) as u8);
        assert(final(out)@ =~= old(out)@ + dec_digits(n as nat));
    }
}

/// Serialize a framebuffer to PPM bytes: the header, then every pixel's
/// clamped and quantized channels in row-major order, nothing after.
pub fn encode(fb: &Framebuffer) -> (r: Vec<u8>)
    requires
        fb.wf(),
    ensures
        r@ == header_bytes(fb.width as nat, fb.height as nat) + body_bytes(fb.pixels@),
{
    let ghost header = header_bytes(fb.width as nat, fb.height as nat);
    let mut out: Vec<u8> = Vec::new();
    out.push(80);
    out.push(54);
    out.push(10);
    push_decimal(&mut out, fb.width as u64);
    out.push(32);
    push_decimal(&mut out, fb.height as u64);
    out.push(10);
    out.push(50);
    out.push(53);
    out.push(53);
    out.push(10);
    assert(out@ =~= header);
    let n = fb.pixels.len();
    let mut k: usize = 0;
    while k < n
        invariant
            k <= n,
            n == fb.pixels@.len(),
            out@ == header + body_bytes(fb.pixels@.take(k as int)),
        decreases n - k,
    {
        let p = fb.pixels[k];
        out.push(quantize(p.x));
        out.push(quantize(p.y));
        out.push(quantize(p.z));
        proof {
            assert(fb.pixels@.take(k + 1).drop_last() =~= fb.pixels@.take(k as int));
            assert(fb.pixels@.take(k + 1).last() == fb.pixels@[k as int]);
            assert(out@ =~= header + body_bytes(fb.pixels@.take(k + 1)));
        }
        k = k + 1;
    }
    proof {
        assert(fb.pixels@.take(n as int) =~= fb.pixels@);
    }
    out
}

/// Length of the digit run of `bytes` starting at `base`.
fn digit_run_from(bytes: &Vec<u8>, base: usize) -> (k: usize)
    requires
        base <= bytes@.len(),
    ensures
        k as int == digit_run(bytes@.skip(base as int)),
        base + k <= bytes@.len(),
        forall|m: int| 0 <= m < k ==> is_digit(#[trigger] bytes@.skip(base as int)[m]),
{
    let ghost s = bytes@.skip(base as int);
    let n = bytes.len();
    let mut k: usize = 0;
    while base + k < n && bytes[base + k] >= 48 && bytes[base + k] <= 57
        invariant
            n == bytes@.len(),
            base + k <= n,
            s == bytes@.skip(base as int),
            forall|m: int| 0 <= m < k ==> is_digit(#[trigger] s[m]),
        decreases n - base - k,
    {
        assert(s[k as int] == bytes@[base + k]);
        k = k + 1;
    }
    proof {
        if base + k < n {
            assert(s[k as int] == bytes@[base + k]);
        }
        lemma_digit_run_char(s, k as int);
    }
    k
}

/// The value of the `k` digits of `bytes` starting at `base`.
fn parse_value(bytes: &Vec<u8>, base: usize, k: usize) -> (v: u64)
    requires
        base + k <= bytes@.len(),
        k <= 7,
        forall|m: int| 0 <= m < k ==> is_digit(#[trigger] bytes@.skip(base as int)[m]),
    ensures
        v as int == digits_val(bytes@.skip(base as int).take(k as int)),
        v <= 9999999,
{
    let ghost s = bytes@.skip(base as int);
    let n = bytes.len();
    let mut v: u64 = 0;
    let mut m: usize = 0;
    proof {
        assert(s.take(0) =~= Seq::<u8>::empty());
        assert(digits_val(Seq::<u8>::empty()) == 0);
    }
    while m < k
        invariant
            m <= k <= 7,
            base + k <= n,
            n == bytes@.len(),
            s == bytes@.skip(base as int),
            forall|mm: int| 0 <= mm < k ==> is_digit(#[trigger] s[mm]),
            v as int == digits_val(s.take(m as int)),
            (v as int) < pow10(m as nat),
        decreases k - m,
    {
        proof {
            lemma_pow10_le7(m as nat);
            assert(pow10((m + 1) as nat) == 10 * pow10(m as nat));
        }
        let d: u8 = bytes[base + m];
        proof {
            assert(d == s[m as int]);
            assert(is_digit(s[m as int]));
        }
        v = v * 10 + ((d - 48) as u64);
        proof {
            assert(s.take(m + 1).drop_last() =~= s.take(m as int));
            assert(s.take(m + 1).last() == s[m as int]);
        }
        m = m + 1;
    }
    proof {
        lemma_pow10_le7(k as nat);
    }
    v
}

/// Parse PPM bytes back into width, height and raw payload bytes,
/// accepting exactly the streams `spec_decode` accepts and returning
/// exactly the parts it names.
pub fn decode(bytes: &Vec<u8>) -> (r: Option<(usize, usize, Vec<u8>)>)
    ensures
        match r {
            Some(t) => spec_decode(bytes@) == Some((t.0 as int, t.1 as int, t.2@)),
            None => spec_decode(bytes@) is None,
        },
{
    let n = bytes.len();
    if n < 3 || bytes[0] != 80 || bytes[1] != 54 || bytes[2] != 10 {
        return None;
    }
    let ghost r1 = bytes@.skip(3);
    let k1 = digit_run_from(bytes, 3);
    if k1 < 1 || k1 > 7 {
        return None;
    }
    let w64 = parse_value(bytes, 3, k1);
    let pos1 = 3 + k1;
    let ghost r2 = r1.skip(k1 as int);
    proof {
        assert(r2 =~= bytes@.skip(pos1 as int));
    }
    if pos1 == n {
        return None;
    }
    if bytes[pos1] != 32 {
        proof {
            assert(r2[0] == bytes@[pos1 as int]);
        }
        return None;
    }
    assert(r2[0] == bytes@[pos1 as int]);
    let base = pos1 + 1;
    let ghost r3 = r2.skip(1);
    proof {
        assert(r3 =~= bytes@.skip(base as int));
    }
    let k2 = digit_run_from(bytes, base);
    if k2 < 1 || k2 > 7 {
        return None;
    }
    let h64 = parse_value(bytes, base, k2);
    let pos2 = base + k2;
    let ghost r4 = r3.skip(k2 as int);
    proof {
        assert(r4 =~= bytes@.skip(pos2 as int));
    }
    if n - pos2 < 5 {
        return None;
    }
    proof {
        assert(r4[0] == bytes@[pos2 as int]);
        assert(r4[1] == bytes@[pos2 + 1]);
        assert(r4[2] == bytes@[pos2 + 2]);
        assert(r4[3] == bytes@[pos2 + 3]);
        assert(r4[4] == bytes@[pos2 + 4]);
    }
    if bytes[pos2] != 10 || bytes[pos2 + 1] != 50 || bytes[pos2 + 2] != 53 || bytes[pos2 + 3]
        != 53 || bytes[pos2 + 4] != 10 {
        return None;
    }
    if w64 < 1 || h64 < 1 {
        return None;
    }
    let start = pos2 + 5;
    let mut p: Vec<u8> = Vec::new();
    let mut q: usize = start;
    proof {
        assert(p@ =~= bytes@.subrange(start as int, start as int));
    }
    while q < n
        invariant
            start <= q <= n,
            n == bytes@.len(),
            p@ == bytes@.subrange(start as int, q as int),
        decreases n - q,
    {
        p.push(bytes[q]);
        proof {
            assert(p@ =~= bytes@.subrange(start as int, q + 1));
        }
        q = q + 1;
    }
    proof {
        assert(r4.skip(5) =~= bytes@.subrange(start as int, n as int));
    }
    proof {
        assert(w64 * h64 <= 99999980000001) by (nonlinear_arith)
            requires
                w64 <= 9999999,
                h64 <= 9999999,
        ;
    }
    let prod = w64 * h64;
    let need = 3 * prod;
    proof {
        assert(3 * ((w64 as int) * (h64 as int)) == 3 * (w64 as int) * (h64 as int))
            by (nonlinear_arith);
    }
    if (p.len() as u64) != need {
        return None;
    }
    Some((w64 as usize, h64 as usize, p))
}

/// Quantization clamps before scaling, so a channel clamped in advance
/// encodes to the same byte: clamping is idempotent.
pub proof fn lemma_quantize_clamp(c: int)
    ensures
        spec_quantize(spec_clamp(c)) == spec_quantize(c),
{
}

/// One pixel clamped in advance encodes to the same three bytes.
pub open spec fn clamp_pixel(p: Vec3) -> Vec3 {
    Vec3 {
        x: spec_clamp(p.x as int) as i64,
        y: spec_clamp(p.y as int) as i64,
        z: spec_clamp(p.z as int) as i64,
    }
}

/// Clamping every pixel of a raster in advance leaves the encoded bytes
/// unchanged, whatever the channel values were.
pub proof fn lemma_body_bytes_clamp(ps: Seq<Vec3>)
    ensures
        body_bytes(ps.map_values(|p: Vec3| clamp_pixel(p))) == body_bytes(ps),
    decreases ps.len(),
{
    let m = ps.map_values(|p: Vec3| clamp_pixel(p));
    if ps.len() == 0 {
        assert(m =~= Seq::<Vec3>::empty());
    } else {
        lemma_body_bytes_clamp(ps.drop_last());
        assert(m.drop_last() =~= ps.drop_last().map_values(|p: Vec3| clamp_pixel(p)));
        assert(m.last() == clamp_pixel(ps.last()));
        assert(pixel_bytes(clamp_pixel(ps.last())) == pixel_bytes(ps.last()));
    }
}

/// An ASCII decimal digit.
pub open spec fn is_digit(b: u8) -> bool {
    48 <= b && b <= 57
}

/// Length of the run of digits a byte sequence starts with.
pub open spec fn digit_run(s: Seq<u8>) -> int
    decreases s.len(),
{
    if s.len() > 0 && is_digit(s[0]) {
        1 + digit_run(s.drop_first())
    } else {
        0
    }
}

/// The number a sequence of decimal digits denotes, most significant first.
pub open spec fn digits_val(s: Seq<u8>) -> int
    decreases s.len(),
{
    if s.len() == 0 {
        0
    } else {
        digits_val(s.drop_last()) * 10 + (s.last() - 48)
    }
}

/// The power `10^d`.
pub open spec fn pow10(d: nat) -> int
    decreases d,
{
    if d == 0 {
        1
    } else {
        10 * pow10((d - 1) as nat)
    }
}

/// Parse PPM bytes: the `P6\n` magic, a digit run for the width, a space,
/// a digit run for the height, then `\n255\n` and exactly three payload
/// bytes per pixel. Anything else is rejected, as is a dimension of zero
/// or of more than seven digits.
pub open spec fn spec_decode(s: Seq<u8>) -> Option<(int, int, Seq<u8>)> {
    if s.len() < 3 || s[0] != 80 || s[1] != 54 || s[2] != 10 {
        None
    } else {
        let r1 = s.skip(3);
        let k1 = digit_run(r1);
        let w = digits_val(r1.take(k1));
        let r2 = r1.skip(k1);
        if k1 < 1 || k1 > 7 || r2.len() < 1 || r2[0] != 32 {
            None
        } else {
            let r3 = r2.skip(1);
            let k2 = digit_run(r3);
            let h = digits_val(r3.take(k2));
            let r4 = r3.skip(k2);
            if k2 < 1 || k2 > 7 || r4.len() < 5 || r4[0] != 10 || r4[1] != 50 || r4[2] != 53
                || r4[3] != 53 || r4[4] != 10 {
                None
            } else {
                let payload = r4.skip(5);
                if 1 <= w && 1 <= h && payload.len() == 3 * w * h {
                    Some((w, h, payload))
                } else {
                    None
                }
            }
        }
    }
}

/// The digit run is the unique cut: digits before it, the end of the
/// sequence or a non-digit at it.
pub proof fn lemma_digit_run_char(s: Seq<u8>, k: int)
    requires
        0 <= k <= s.len(),
        forall|m: int| 0 <= m < k ==> is_digit(#[trigger] s[m]),
        k < s.len() ==> !is_digit(s[k]),
    ensures
        digit_run(s) == k,
    decreases s.len(),
{
    if k == 0 {
        if s.len() > 0 {
            assert(!is_digit(s[0]));
        }
    } else {
        assert(is_digit(s[0]));
        let t = s.drop_first();
        assert(forall|m: int| 0 <= m < k - 1 ==> is_digit(#[trigger] t[m]));
        lemma_digit_run_char(t, k - 1);
    }
}

/// Every byte of a decimal rendering is a digit.
pub proof fn lemma_dec_digits_are_digits(n: nat)
    ensures
        forall|k: int| 0 <= k < dec_digits(n).len() ==> is_digit(#[trigger] dec_digits(n)[k]),
    decreases n,
{
    let s = dec_digits(n);
    if n < 10 {
        assert(is_digit(s[0]));
    } else {
        lemma_dec_digits_are_digits(n / 10);
        let t = dec_digits(n / 10);
        assert forall|k: int| 0 <= k < s.len() implies is_digit(#[trigger] s[k]) by {
            if k < t.len() {
                assert(s[k] == t[k]);
            } else {
                assert(s[k] == (48 + n % 10) as u8);
            }
        }
    }
}

/// `pow10` stays small for small exponents.
pub proof fn lemma_pow10_le7(d: nat)
    requires
        d <= 7,
    ensures
        1 <= pow10(d) <= 10000000,
{
    reveal_with_fuel(pow10, 9);
    assert(pow10(0) == 1);
    assert(pow10(1) == 10);
    assert(pow10(2) == 100);
    assert(pow10(3) == 1000);
    assert(pow10(4) == 10000);
    assert(pow10(5) == 100000);
    assert(pow10(6) == 1000000);
    assert(pow10(7) == 10000000);
}

/// A number below `10^d` renders to at most `d` digits (and at least one).
pub proof fn lemma_dec_digits_len(n: nat, d: nat)
    requires
        1 <= d,
        n < pow10(d),
    ensures
        1 <= dec_digits(n).len() <= d,
    decreases n,
{
    if n >= 10 {
        if d == 1 {
            assert(pow10(1) == 10) by {
                reveal_with_fuel(pow10, 3);
            }
            assert(false);
        }
        assert(pow10(d) == 10 * pow10((d - 1) as nat));
        lemma_multiply_divide_lt(n as int, 10, pow10((d - 1) as nat));
        lemma_dec_digits_len(n / 10, (d - 1) as nat);
    }
}

/// The digits of `n` denote `n`: decimal rendering and parsing invert.
pub proof fn lemma_digits_val_dec(n: nat)
    ensures
        digits_val(dec_digits(n)) == n,
    decreases n,
{
    if n < 10 {
        let s = dec_digits(n);
        assert(s.drop_last() =~= Seq::<u8>::empty());
        assert(digits_val(Seq::<u8>::empty()) == 0);
        assert(s.last() == (48 + n) as u8);
    } else {
        lemma_digits_val_dec(n / 10);
        let s = dec_digits(n);
        assert(s.drop_last() =~= dec_digits(n / 10));
        lemma_fundamental_div_mod(n as int, 10);
    }
}

/// Decoding inverts encoding: a stream made of the header for `w` and `h`
/// followed by three payload bytes per pixel decodes to exactly those
/// parts.
pub proof fn lemma_decode_header(w: nat, h: nat, payload: Seq<u8>)
    requires
        1 <= w <= 4096,
        1 <= h <= 4096,
        payload.len() == 3 * w * h,
    ensures
        spec_decode(header_bytes(w, h) + payload) == Some((w as int, h as int, payload)),
{
    let s = header_bytes(w, h) + payload;
    let dw = dec_digits(w);
    let dh = dec_digits(h);
    let tail5 = seq![10u8, 50u8, 53u8, 53u8, 10u8];
    lemma_dec_digits_are_digits(w);
    lemma_dec_digits_are_digits(h);
    assert(pow10(4) == 10000) by {
        reveal_with_fuel(pow10, 5);
    }
    lemma_dec_digits_len(w, 4);
    lemma_dec_digits_len(h, 4);
    lemma_digits_val_dec(w);
    lemma_digits_val_dec(h);
    assert(s[0] == 80 && s[1] == 54 && s[2] == 10);
    let r1 = s.skip(3);
    let rest1 = seq![32u8] + dh + tail5 + payload;
    assert(r1 =~= dw + rest1);
    assert forall|m: int| 0 <= m < dw.len() implies is_digit(#[trigger] r1[m]) by {
        assert(r1[m] == dw[m]);
    }
    assert(r1[dw.len() as int] == 32);
    lemma_digit_run_char(r1, dw.len() as int);
    assert(r1.take(dw.len() as int) =~= dw);
    let r2 = r1.skip(dw.len() as int);
    assert(r2 =~= rest1);
    let r3 = r2.skip(1);
    let rest2 = tail5 + payload;
    assert(r3 =~= dh + rest2);
    assert forall|m: int| 0 <= m < dh.len() implies is_digit(#[trigger] r3[m]) by {
        assert(r3[m] == dh[m]);
    }
    assert(r3[dh.len() as int] == 10);
    lemma_digit_run_char(r3, dh.len() as int);
    assert(r3.take(dh.len() as int) =~= dh);
    let r4 = r3.skip(dh.len() as int);
    assert(r4 =~= rest2);
    assert(r4.skip(5) =~= payload);
}

/// What `encode` produced decodes back to the framebuffer's dimensions
/// and its raster bytes: the full round trip.
pub proof fn lemma_round_trip(fb: Framebuffer)
    requires
        fb.wf(),
    ensures
        spec_decode(header_bytes(fb.width as nat, fb.height as nat) + body_bytes(fb.pixels@))
            == Some((fb.width as int, fb.height as int, body_bytes(fb.pixels@))),
{
    lemma_body_bytes_len(fb.pixels@);
    assert(3 * ((fb.width as int) * (fb.height as int)) == 3 * (fb.width as int) * (
    fb.height as int)) by (nonlinear_arith);
    lemma_decode_header(fb.width as nat, fb.height as nat, body_bytes(fb.pixels@));
}

/// A raster of all-zero pixels encodes to all-zero bytes, three per pixel.
pub proof fn lemma_body_bytes_zero(ps: Seq<Vec3>)
    requires
        forall|k: int| 0 <= k < ps.len() ==> ps[k] == (Vec3 { x: 0, y: 0, z: 0 }),
    ensures
        body_bytes(ps) == Seq::new((3 * ps.len()) as nat, |m: int| 0u8),
    decreases ps.len(),
{
    if ps.len() == 0 {
        assert(body_bytes(ps) =~= Seq::new((3 * ps.len()) as nat, |m: int| 0u8));
    } else {
        lemma_body_bytes_zero(ps.drop_last());
        assert(ps.last() == (Vec3 { x: 0, y: 0, z: 0 }));
        assert(body_bytes(ps) =~= Seq::new((3 * ps.len()) as nat, |m: int| 0u8));
    }
}

} // verus!
