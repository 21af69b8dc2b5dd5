//! Packing of a grayscale image into a column-major monochrome bitmap: each
//! output byte holds eight vertically stacked pixels of one column.
use vstd::prelude::*;

verus! {

/// A pixel is lit when its intensity is at or above this value.
pub const LIT_THRESHOLD: u8 = 32;

/// The intensity of pixel `(x, y)` in a row-major buffer of rows `w` pixels wide.
pub open spec fn pixel(raw: Seq<u8>, w: nat, x: nat, y: nat) -> u8 {
    raw[(x + y * w) as int]
}

pub open spec fn is_lit(raw: Seq<u8>, w: nat, x: nat, y: nat) -> bool {
    pixel(raw, w, x, y) >= LIT_THRESHOLD
}

/// The byte with bit `s` set exactly when `lit` holds.
pub open spec fn bit_if(lit: bool, s: nat) -> u8 {
    if lit {
        (1u8 << s as u8) as u8
    } else {
        0u8
    }
}

/// The low `n` bits of the byte for column `x` of row group `g`: bit `s`
/// stands for the pixel of row `g * 8 + s`.
pub open spec fn group_bits(raw: Seq<u8>, w: nat, g: nat, x: nat, n: nat) -> u8
    decreases n,
{
    if n == 0 {
        0u8
    } else {
        let s = (n - 1) as nat;
        group_bits(raw, w, g, x, s) | bit_if(is_lit(raw, w, x, g * 8 + s), s)
    }
}

pub open spec fn column_byte(raw: Seq<u8>, w: nat, g: nat, x: nat) -> u8 {
    group_bits(raw, w, g, x, 8)
}

/// The packed bitmap of a `w` by `h` image: row group after row group, and
/// within a group one byte per column; rows past the last full group of
/// eight are dropped.
pub open spec fn packed(raw: Seq<u8>, w: nat, h: nat) -> Seq<u8> {
    packed_prefix(raw, w, w * (h / 8))
}

/// The first `n` bytes of the packed bitmap of an image `w` pixels wide.
pub open spec fn packed_prefix(raw: Seq<u8>, w: nat, n: nat) -> Seq<u8> {
    Seq::new(n, |k: int| column_byte(raw, w, (k / (w as int)) as nat, (k % (w as int)) as nat))
}

/// The byte for column `x` of row group `g`, read from the buffer.
fn column_byte_of(raw: &[u8], width: usize, g: usize, x: usize) -> (r: u8)
    requires
        x < width,
        (g * 8 + 8) * width <= raw@.len(),
    ensures
        r == column_byte(raw@, width as nat, g as nat, x as nat),
{
    let len = raw.len();
    let mut acc: u8 = 0;
    let mut shift: usize = 0;
    while shift < 8
        invariant
            shift <= 8,
            x < width,
            (g * 8 + 8) * width <= raw@.len(),
            len == raw@.len(),
            acc == group_bits(raw@, width as nat, g as nat, x as nat, shift as nat),
        decreases 8 - shift,
    {
        proof {
            assert(x + (g * 8 + shift) * width < (g * 8 + 8) * width) by (nonlinear_arith)
                requires
                    x < width,
                    shift < 8,
            ;
            assert(g * 8 + shift <= (g * 8 + shift) * width) by (nonlinear_arith)
                requires
                    x < width,
            ;
        }
        let idx = x + (g * 8 + shift) * width;
        if raw[idx] >= LIT_THRESHOLD {
            acc = acc | (1u8 << (shift as u8));
        } else {
            assert(acc | 0u8 == acc) by (bit_vector);
        }
        shift += 1;
    }
    acc
}

/// Packs a `width` by `height` grayscale buffer, given row by row, into a
/// monochrome bitmap; `None` when the buffer holds fewer than
/// `width * height` pixels.
pub fn pack(raw: &[u8], width: usize, height: usize) -> (r: Option<Vec<u8>>)
    ensures
        r.is_some() <==> raw@.len() >= width * height,
        r matches Some(out) ==> out@ == packed(raw@, width as nat, height as nat),
{
    let len = raw.len();
    match width.checked_mul(height) {
        None => {
            assert(width * height > len);
            return None;
        },
        Some(n) => {
            if raw.len() < n {
                return None;
            }
        },
    }
    let groups = height / 8;
    let ghost w = width as nat;
    let ghost h = height as nat;
    assert(h == height as nat);
    let mut out: Vec<u8> = Vec::new();
    let mut g: usize = 0;
    while g < groups
        invariant
            groups == height / 8,
            w == width as nat,
            g <= groups,
            width * height <= raw@.len(),
            out@ =~= packed_prefix(raw@, w, (g * w) as nat),
        decreases groups - g,
    {
        proof {
            assert((g * 8 + 8) * width <= width * height) by (nonlinear_arith)
                requires
                    g < height / 8,
            ;
        }
        let mut x: usize = 0;
        while x < width
            invariant
                groups == height / 8,
                w == width as nat,
                g < groups,
                x <= width,
                (g * 8 + 8) * width <= raw@.len(),
                out@ =~= packed_prefix(raw@, w, (g * w + x) as nat),
            decreases width - x,
        {
            let byte = column_byte_of(raw, width, g, x);
            proof {
                vstd::arithmetic::div_mod::lemma_fundamental_div_mod_converse(
                    (g * w + x) as int, w as int, g as int, x as int);
            }
            out.push(byte);
            x += 1;
        }
        proof {
            assert(g * w + w == (g + 1) * w) by (nonlinear_arith);
        }
        g += 1;
    }
    proof {
        assert(groups * w == w * (h / 8)) by (nonlinear_arith)
            requires
                groups == h / 8,
        ;
    }
    Some(out)
}

proof fn lemma_or_bit(a: u8, t: u8, s: u8)
    by (bit_vector)
    requires
        t < 8,
        s < 8,
    ensures
        ((a | (1u8 << t)) >> s) & 1 == if s == t { 1u8 } else { (a >> s) & 1 },
        ((a | 0u8) >> s) & 1 == (a >> s) & 1,
{
}

/// Bit `s` of the low `n` bits of a column byte is set exactly when `s < n`
/// and the pixel of row `g * 8 + s` is lit.
proof fn lemma_group_bit(raw: Seq<u8>, w: nat, g: nat, x: nat, n: nat, s: nat)
    requires
        n <= 8,
        s < 8,
    ensures
        (group_bits(raw, w, g, x, n) >> s as u8) & 1 == if s < n && is_lit(raw, w, x, g * 8 + s) {
            1u8
        } else {
            0u8
        },
    decreases n,
{
    if n == 0 {
        let t = s as u8;
        assert((0u8 >> t) & 1 == 0) by (bit_vector);
    } else {
        let t = (n - 1) as nat;
        lemma_group_bit(raw, w, g, x, t, s);
        lemma_or_bit(group_bits(raw, w, g, x, t), t as u8, s as u8);
    }
}

proof fn lemma_byte_of_bits(b: u8, v: u8)
    by (bit_vector)
    requires
        v == 0 || v == 1,
        (b >> 0u8) & 1 == v,
        (b >> 1u8) & 1 == v,
        (b >> 2u8) & 1 == v,
        (b >> 3u8) & 1 == v,
        (b >> 4u8) & 1 == v,
        (b >> 5u8) & 1 == v,
        (b >> 6u8) & 1 == v,
        (b >> 7u8) & 1 == v,
    ensures
        v == 0 ==> b == 0,
        v == 1 ==> b == 0xFF,
{
}

/// The packed bitmap holds one byte per column for each full group of eight
/// rows.
pub proof fn lemma_packed_len(raw: Seq<u8>, w: nat, h: nat)
    ensures
        packed(raw, w, h).len() == w * (h / 8),
        h % 8 == 0 ==> packed(raw, w, h).len() == w * h / 8,
{
    if h % 8 == 0 {
        assert(w * (h / 8) == w * h / 8) by (nonlinear_arith)
            requires
                h % 8 == 0,
        ;
    }
}

/// Byte `k` of the packed bitmap belongs to column `k % w` of row group
/// `k / w`, and its bit `s` is set exactly when the pixel of that column in
/// row `(k / w) * 8 + s` is lit.
pub proof fn lemma_packed_bit(raw: Seq<u8>, w: nat, h: nat, k: int, s: nat)
    requires
        0 <= k < packed(raw, w, h).len(),
        s < 8,
    ensures
        packed(raw, w, h)[k] == column_byte(raw, w, (k / (w as int)) as nat, (k % (w as int)) as nat),
        (packed(raw, w, h)[k] >> s as u8) & 1 == 1 <==> is_lit(
            raw,
            w,
            (k % (w as int)) as nat,
            ((k / (w as int)) * 8 + s) as nat,
        ),
{
    if w == 0 {
        assert(w * (h / 8) == 0);
    }
    assert(w > 0);
    assert(k / (w as int) >= 0) by (nonlinear_arith)
        requires
            k >= 0,
            w > 0,
    ;
    lemma_group_bit(raw, w, (k / (w as int)) as nat, (k % (w as int)) as nat, 8, s);
}

/// The pixel of column `x`, row `y` lies in a buffer of `w * h` pixels.
proof fn lemma_pixel_in_buffer(w: nat, h: nat, x: nat, y: nat)
    requires
        x < w,
        y < h,
    ensures
        x + y * w < w * h,
{
    assert(x + y * w < w * h) by (nonlinear_arith)
        requires
            x < w,
            y < h,
    ;
}

/// The position in the image of bit `s` of packed byte `k`.
proof fn lemma_packed_pixel(w: nat, h: nat, k: int, s: nat)
    requires
        0 <= k < w * (h / 8),
        s < 8,
    ensures
        (k % (w as int)) + ((k / (w as int)) * 8 + s) * w < w * h,
        0 <= k % (w as int),
        0 <= k / (w as int),
{
    assert(w > 0) by (nonlinear_arith)
        requires
            0 <= k < w * (h / 8),
    ;
    assert(k / (w as int) < h / 8) by (nonlinear_arith)
        requires
            0 <= k < w * (h / 8),
            w > 0,
    ;
    assert(0 <= k / (w as int)) by (nonlinear_arith)
        requires
            0 <= k,
            w > 0,
    ;
    lemma_pixel_in_buffer(w, h, (k % (w as int)) as nat, ((k / (w as int)) * 8 + s) as nat);
}

/// In a buffer whose pixels all have intensity `v`, every bit of every
/// packed byte is set exactly when `v` is lit.
proof fn lemma_uniform_bit(raw: Seq<u8>, w: nat, h: nat, v: u8, k: int, s: nat)
    requires
        raw.len() >= w * h,
        forall|i: int| 0 <= i < raw.len() ==> raw[i] == v,
        0 <= k < packed(raw, w, h).len(),
        s < 8,
    ensures
        (packed(raw, w, h)[k] >> s as u8) & 1 == if v >= LIT_THRESHOLD { 1u8 } else { 0u8 },
{
    lemma_packed_pixel(w, h, k, s);
    lemma_packed_bit(raw, w, h, k, s);
    lemma_group_bit(raw, w, (k / (w as int)) as nat, (k % (w as int)) as nat, 8, s);
}

proof fn lemma_uniform_byte(raw: Seq<u8>, w: nat, h: nat, v: u8, k: int)
    requires
        raw.len() >= w * h,
        forall|i: int| 0 <= i < raw.len() ==> raw[i] == v,
        0 <= k < packed(raw, w, h).len(),
    ensures
        packed(raw, w, h)[k] == if v >= LIT_THRESHOLD { 0xFFu8 } else { 0u8 },
{
    lemma_uniform_bit(raw, w, h, v, k, 0);
    lemma_uniform_bit(raw, w, h, v, k, 1);
    lemma_uniform_bit(raw, w, h, v, k, 2);
    lemma_uniform_bit(raw, w, h, v, k, 3);
    lemma_uniform_bit(raw, w, h, v, k, 4);
    lemma_uniform_bit(raw, w, h, v, k, 5);
    lemma_uniform_bit(raw, w, h, v, k, 6);
    lemma_uniform_bit(raw, w, h, v, k, 7);
    lemma_byte_of_bits(packed(raw, w, h)[k], if v >= LIT_THRESHOLD { 1u8 } else { 0u8 });
}

/// A buffer of all-dark pixels packs to all-zero bytes.
pub proof fn lemma_packed_dark(raw: Seq<u8>, w: nat, h: nat)
    requires
        raw.len() >= w * h,
        forall|i: int| 0 <= i < raw.len() ==> raw[i] == 0,
    ensures
        forall|k: int| 0 <= k < packed(raw, w, h).len() ==> packed(raw, w, h)[k] == 0,
{
    assert forall|k: int| 0 <= k < packed(raw, w, h).len() implies packed(raw, w, h)[k] == 0 by {
        lemma_uniform_byte(raw, w, h, 0, k);
    }
}

/// A buffer of all-bright pixels packs to all-ones bytes.
pub proof fn lemma_packed_bright(raw: Seq<u8>, w: nat, h: nat)
    requires
        raw.len() >= w * h,
        forall|i: int| 0 <= i < raw.len() ==> raw[i] == 255,
    ensures
        forall|k: int| 0 <= k < packed(raw, w, h).len() ==> packed(raw, w, h)[k] == 0xFF,
{
    assert forall|k: int| 0 <= k < packed(raw, w, h).len() implies packed(raw, w, h)[k] == 0xFF by {
        lemma_uniform_byte(raw, w, h, 255, k);
    }
}

} // verus!
