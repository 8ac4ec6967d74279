//! The integer side of the headless renderer: box-filtering the
//! supersampled frame down to the requested size, encoding the frame as a
//! PNG document, and reading the renderer's command line.
use vstd::prelude::*;
use crate::text::{opt_view, chars_of, parse_usize_at, parse_usize_spec, str_eq};
use vstd::arithmetic::div_mod::{
    lemma_fundamental_div_mod, lemma_fundamental_div_mod_converse, lemma_mod_pos_bound,
};

verus! {

/// Channel `c` of the source pixel at column `x0 + xx`, row `y0 + yy` of
/// an RGB frame `sw` pixels wide.
pub open spec fn sample(src: Seq<u8>, sw: int, x0: int, y0: int, xx: int, yy: int, c: int) -> int {
    src[((y0 + yy) * sw + x0 + xx) * 3 + c] as int
}

/// Sum of channel `c` over the first `n` pixels of row `yy` of a block.
pub open spec fn row_sum(src: Seq<u8>, sw: int, x0: int, y0: int, yy: int, c: int, n: nat) -> int
    decreases n,
{
    if n == 0 {
        0
    } else {
        row_sum(src, sw, x0, y0, yy, c, (n - 1) as nat) + sample(src, sw, x0, y0, n - 1, yy, c)
    }
}

/// Sum of channel `c` over the first `m` rows of an `sx`-wide block.
pub open spec fn block_sum(src: Seq<u8>, sw: int, x0: int, y0: int, sx: nat, c: int, m: nat) -> int
    decreases m,
{
    if m == 0 {
        0
    } else {
        block_sum(src, sw, x0, y0, sx, c, (m - 1) as nat) + row_sum(
            src,
            sw,
            x0,
            y0,
            m - 1,
            c,
            sx,
        )
    }
}

/// Byte `i` of the box-filtered frame: the mean (rounded down) of its
/// channel over the `sw/dw` by `sh/dh` block of source pixels it covers.
pub open spec fn downsampled(src: Seq<u8>, sw: int, sh: int, dw: int, dh: int, i: int) -> int {
    let sx = sw / dw;
    let sy = sh / dh;
    let p = i / 3;
    let c = i % 3;
    let y = p / dw;
    let x = p % dw;
    block_sum(src, sw, x * sx, y * sy, sx as nat, c, sy as nat) / (sx * sy)
}

/// Box-filtering a frame down to its own size gives it back unchanged.
pub proof fn downsample_to_same_size_is_identity(src: Seq<u8>, w: int, h: int, i: int)
    requires
        0 < w,
        0 < h,
        0 <= i < w * h * 3,
        src.len() >= w * h * 3,
    ensures
        downsampled(src, w, h, w, h, i) == src[i] as int,
{
    reveal_with_fuel(row_sum, 2);
    reveal_with_fuel(block_sum, 2);
    lemma_fundamental_div_mod_converse(w, w, 1, 0);
    lemma_fundamental_div_mod_converse(h, h, 1, 0);
    let p = i / 3;
    let c = i % 3;
    lemma_fundamental_div_mod(i, 3);
    lemma_mod_pos_bound(i, 3);
    let y = p / w;
    let x = p % w;
    lemma_fundamental_div_mod(p, w);
    assert(x * 1 == x && y * 1 == y);
    assert(row_sum(src, w, x, y, 0, c, 1) == sample(src, w, x, y, 0, 0, c));
    assert(block_sum(src, w, x, y, 1, c, 1) == row_sum(src, w, x, y, 0, c, 1));
    assert((y + 0) * w + x + 0 == p) by (nonlinear_arith)
        requires
            p == w * y + x,
    ;
    assert(p * 3 + c == i);
    assert(w / w == 1 && h / h == 1);
    assert(x * (w / w) == x && y * (h / h) == y);
    assert(sample(src, w, x, y, 0, 0, c) == src[i] as int);
    assert(downsampled(src, w, h, w, h, i) == block_sum(src, w, x, y, 1, c, 1) / 1);
}

proof fn lemma_row_sum_bound(src: Seq<u8>, sw: int, x0: int, y0: int, yy: int, c: int, n: nat)
    ensures
        0 <= row_sum(src, sw, x0, y0, yy, c, n) <= 255 * n,
    decreases n,
{
    if n > 0 {
        lemma_row_sum_bound(src, sw, x0, y0, yy, c, (n - 1) as nat);
    }
}

proof fn lemma_block_sum_bound(src: Seq<u8>, sw: int, x0: int, y0: int, sx: nat, c: int, m: nat)
    ensures
        0 <= block_sum(src, sw, x0, y0, sx, c, m) <= 255 * sx * m,
    decreases m,
{
    if m > 0 {
        lemma_block_sum_bound(src, sw, x0, y0, sx, c, (m - 1) as nat);
        lemma_row_sum_bound(src, sw, x0, y0, m - 1, c, sx);
        assert(255 * sx * (m - 1) + 255 * sx == 255 * sx * m) by (nonlinear_arith);
    }
}

proof fn lemma_index(sw: int, sh: int, dw: int, dh: int, sx: int, sy: int, x: int, y: int, xx: int, yy: int)
    requires
        0 < dw,
        0 < dh,
        sx * dw <= sw,
        sy * dh <= sh,
        0 <= x < dw,
        0 <= y < dh,
        0 <= xx < sx,
        0 <= yy < sy,
    ensures
        0 <= x * sx + xx,
        0 <= (y * sy + yy) * sw,
        0 <= (y * sy + yy) * sw + x * sx + xx,
        (y * sy + yy) * sw + x * sx + xx < sw * sh,
        y * sy + yy < sh,
        x * sx + xx < sw,
{
    assert(y * sy + yy < sh) by (nonlinear_arith)
        requires
            0 <= y < dh,
            0 <= yy < sy,
            sy * dh <= sh,
    ;
    assert(x * sx + xx < sw) by (nonlinear_arith)
        requires
            0 <= x < dw,
            0 <= xx < sx,
            sx * dw <= sw,
    ;
    assert(0 <= y * sy + yy) by (nonlinear_arith)
        requires
            0 <= y,
            0 <= yy,
            0 <= sy,
    ;
    assert(0 <= x * sx + xx) by (nonlinear_arith)
        requires
            0 <= x,
            0 <= xx,
            0 <= sx,
    ;
    let r = y * sy + yy;
    let q = x * sx + xx;
    assert(0 <= r * sw) by (nonlinear_arith)
        requires
            0 <= r,
            0 <= q < sw,
    ;
    assert(0 <= r * sw + q && r * sw + q < sw * sh) by (nonlinear_arith)
        requires
            0 <= r < sh,
            0 <= q < sw,
    ;
}

proof fn lemma_out_index(dw: int, x: int, y: int, c: int)
    requires
        0 < dw,
        0 <= x < dw,
        0 <= y,
        0 <= c < 3,
    ensures
        ((y * dw + x) * 3 + c) / 3 == y * dw + x,
        ((y * dw + x) * 3 + c) % 3 == c,
        (y * dw + x) / dw == y,
        (y * dw + x) % dw == x,
{
    lemma_fundamental_div_mod_converse((y * dw + x) * 3 + c, 3, y * dw + x, c);
    lemma_fundamental_div_mod_converse(y * dw + x, dw, y, x);
}

/// Box-filter an RGB frame of `sw` by `sh` pixels down to `dw` by `dh`:
/// each output pixel is the per-channel mean (rounded down) of the
/// `sw/dw` by `sh/dh` block of source pixels it covers.
pub fn downsample(src: &[u8], sw: usize, sh: usize, dw: usize, dh: usize) -> (out: Vec<u8>)
    requires
        0 < dw <= sw,
        0 < dh <= sh,
        src@.len() >= sw * sh * 3,
        sw * sh * 255 <= u64::MAX,
    ensures
        out@.len() == dw * dh * 3,
        forall|i: int|
            0 <= i < out@.len() ==> (#[trigger] out@[i]) as int == downsampled(
                src@,
                sw as int,
                sh as int,
                dw as int,
                dh as int,
                i,
            ),
{
    let len: usize = src.len();
    assert(sw * sh * 3 <= len);
    let sx: usize = sw / dw;
    let sy: usize = sh / dh;
    proof {
        lemma_fundamental_div_mod(sw as int, dw as int);
        lemma_fundamental_div_mod(sh as int, dh as int);
        lemma_mod_pos_bound(sw as int, dw as int);
        lemma_mod_pos_bound(sh as int, dh as int);
        assert(sx >= 1 && sy >= 1) by (nonlinear_arith)
            requires
                sw == dw * sx + sw % dw,
                sh == dh * sy + sh % dh,
                0 <= sw % dw < dw,
                0 <= sh % dh < dh,
                dw <= sw,
                dh <= sh,
        ;
        assert(sx * dw <= sw && sy * dh <= sh) by (nonlinear_arith)
            requires
                sw == dw * sx + sw % dw,
                sh == dh * sy + sh % dh,
                0 <= sw % dw,
                0 <= sh % dh,
        ;
        assert(sx * sy <= sw * sh) by (nonlinear_arith)
            requires
                1 <= sx,
                1 <= sy,
                sx * dw <= sw,
                sy * dh <= sh,
                1 <= dw,
                1 <= dh,
        ;
        assert(sx * sy >= 1) by (nonlinear_arith)
            requires
                1 <= sx,
                1 <= sy,
        ;
        assert(dw * dh * 3 <= sw * sh * 3) by (nonlinear_arith)
            requires
                1 <= dw <= sw,
                1 <= dh <= sh,
        ;
    }
    let n: u64 = (sx * sy) as u64;
    let mut out: Vec<u8> = Vec::new();
    let mut y: usize = 0;
    while y < dh
        invariant
            0 < dw <= sw,
            0 < dh <= sh,
            src@.len() >= sw * sh * 3,
            sw * sh * 3 <= usize::MAX,
            sw * sh * 255 <= u64::MAX,
            sx == sw / dw,
            sy == sh / dh,
            sx >= 1,
            sy >= 1,
            sx * dw <= sw,
            sy * dh <= sh,
            sx * sy <= sw * sh,
            n == sx * sy,
            n >= 1,
            y <= dh,
            out@.len() == y * dw * 3,
            forall|i: int|
                0 <= i < out@.len() ==> (#[trigger] out@[i]) as int == downsampled(
                    src@,
                    sw as int,
                    sh as int,
                    dw as int,
                    dh as int,
                    i,
                ),
        decreases dh - y,
    {
        let mut x: usize = 0;
        while x < dw
            invariant
                0 < dw <= sw,
                0 < dh <= sh,
                src@.len() >= sw * sh * 3,
                sw * sh * 3 <= usize::MAX,
                sw * sh * 255 <= u64::MAX,
                sx == sw / dw,
                sy == sh / dh,
                sx >= 1,
                sy >= 1,
                sx * dw <= sw,
                sy * dh <= sh,
                sx * sy <= sw * sh,
                n == sx * sy,
                n >= 1,
                y < dh,
                x <= dw,
                out@.len() == (y * dw + x) * 3,
                forall|i: int|
                    0 <= i < out@.len() ==> (#[trigger] out@[i]) as int == downsampled(
                        src@,
                        sw as int,
                        sh as int,
                        dw as int,
                        dh as int,
                        i,
                    ),
            decreases dw - x,
        {
            let ghost x0 = (x * sx) as int;
            let ghost y0 = (y * sy) as int;
            let mut a0: u64 = 0;
            let mut a1: u64 = 0;
            let mut a2: u64 = 0;
            let mut yy: usize = 0;
            while yy < sy
                invariant
                    0 < dw <= sw,
                    0 < dh <= sh,
                    src@.len() >= sw * sh * 3,
                    sw * sh * 3 <= usize::MAX,
                    sw * sh * 255 <= u64::MAX,
                    sx >= 1,
                    sy >= 1,
                    sx * dw <= sw,
                    sy * dh <= sh,
                    sx * sy <= sw * sh,
                    y < dh,
                    x < dw,
                    x0 == x * sx,
                    y0 == y * sy,
                    yy <= sy,
                    a0 == block_sum(src@, sw as int, x0, y0, sx as nat, 0, yy as nat),
                    a1 == block_sum(src@, sw as int, x0, y0, sx as nat, 1, yy as nat),
                    a2 == block_sum(src@, sw as int, x0, y0, sx as nat, 2, yy as nat),
                decreases sy - yy,
            {
                let mut xx: usize = 0;
                while xx < sx
                    invariant
                        0 < dw <= sw,
                        0 < dh <= sh,
                        src@.len() >= sw * sh * 3,
                        sw * sh * 3 <= usize::MAX,
                        sw * sh * 255 <= u64::MAX,
                        sx >= 1,
                        sy >= 1,
                        sx * dw <= sw,
                        sy * dh <= sh,
                        sx * sy <= sw * sh,
                        y < dh,
                        x < dw,
                        x0 == x * sx,
                        y0 == y * sy,
                        yy < sy,
                        xx <= sx,
                        a0 == block_sum(src@, sw as int, x0, y0, sx as nat, 0, yy as nat)
                            + row_sum(src@, sw as int, x0, y0, yy as int, 0, xx as nat),
                        a1 == block_sum(src@, sw as int, x0, y0, sx as nat, 1, yy as nat)
                            + row_sum(src@, sw as int, x0, y0, yy as int, 1, xx as nat),
                        a2 == block_sum(src@, sw as int, x0, y0, sx as nat, 2, yy as nat)
                            + row_sum(src@, sw as int, x0, y0, yy as int, 2, xx as nat),
                    decreases sx - xx,
                {
                    proof {
                        lemma_index(
                            sw as int,
                            sh as int,
                            dw as int,
                            dh as int,
                            sx as int,
                            sy as int,
                            x as int,
                            y as int,
                            xx as int,
                            yy as int,
                        );
                        lemma_block_sum_bound(src@, sw as int, x0, y0, sx as nat, 0, yy as nat);
                        lemma_block_sum_bound(src@, sw as int, x0, y0, sx as nat, 1, yy as nat);
                        lemma_block_sum_bound(src@, sw as int, x0, y0, sx as nat, 2, yy as nat);
                        lemma_row_sum_bound(src@, sw as int, x0, y0, yy as int, 0, xx as nat);
                        lemma_row_sum_bound(src@, sw as int, x0, y0, yy as int, 1, xx as nat);
                        lemma_row_sum_bound(src@, sw as int, x0, y0, yy as int, 2, xx as nat);
                        assert(255 * sx * yy + 255 * xx + 255 <= 255 * (sx * sy)) by (nonlinear_arith)
                            requires
                                xx < sx,
                                yy < sy,
                        ;
                        assert(255 * (sx * sy) <= sw * sh * 255) by (nonlinear_arith)
                            requires
                                sx * sy <= sw * sh,
                        ;
                        assert(((y * sy + yy) * sw + x * sx + xx) * 3 + 2 < sw * sh * 3);
                    }
                    let j: usize = ((y * sy + yy) * sw + x * sx + xx) * 3;
                    a0 = a0 + src[j] as u64;
                    a1 = a1 + src[j + 1] as u64;
                    a2 = a2 + src[j + 2] as u64;
                    xx = xx + 1;
                }
                yy = yy + 1;
            }
            proof {
                lemma_block_sum_bound(src@, sw as int, x0, y0, sx as nat, 0, sy as nat);
                lemma_block_sum_bound(src@, sw as int, x0, y0, sx as nat, 1, sy as nat);
                lemma_block_sum_bound(src@, sw as int, x0, y0, sx as nat, 2, sy as nat);
                assert(255 * sx * sy == 255 * (sx * sy)) by (nonlinear_arith);
                assert(a0 / n <= 255 && a1 / n <= 255 && a2 / n <= 255) by (nonlinear_arith)
                    requires
                        n >= 1,
                        a0 <= 255 * n,
                        a1 <= 255 * n,
                        a2 <= 255 * n,
                ;
                assert(y * dw + x < dw * dh) by (nonlinear_arith)
                    requires
                        x < dw,
                        y < dh,
                ;
            }
            let ghost base = out@.len() as int;
            out.push((a0 / n) as u8);
            out.push((a1 / n) as u8);
            out.push((a2 / n) as u8);
            proof {
                assert forall|c: int| 0 <= c < 3 implies (#[trigger] out@[base + c]) as int
                    == downsampled(src@, sw as int, sh as int, dw as int, dh as int, base + c) by {
                    lemma_out_index(dw as int, x as int, y as int, c);
                }
                assert forall|i: int| 0 <= i < out@.len() implies (#[trigger] out@[i]) as int
                    == downsampled(src@, sw as int, sh as int, dw as int, dh as int, i) by {
                    if i >= base {
                        assert(out@[base + (i - base)] == out@[i]);
                    }
                }
                assert((y * dw + x + 1) * 3 == (y * dw + x) * 3 + 3) by (nonlinear_arith);
            }
            x = x + 1;
        }
        assert((y * dw + dw) * 3 == (y + 1) * dw * 3) by (nonlinear_arith);
        y = y + 1;
    }
    assert(dh * dw * 3 == dw * dh * 3) by (nonlinear_arith);
    out
}

/// A procedural surface texture drawn over the blades.
#[derive(PartialEq, Eq, Structural, Clone, Copy, Debug)]
pub enum Texture {
    /// No pattern (a plain surface).
    Plain,
    /// Bands of constant spanwise fraction.
    Rings,
    /// Bands of constant chordwise fraction.
    Stripes,
    /// Both.
    Grid,
}

pub open spec fn texture_spec(name: Seq<char>) -> Option<Texture> {
    if name == "none"@ {
        Some(Texture::Plain)
    } else if name == "rings"@ {
        Some(Texture::Rings)
    } else if name == "stripes"@ {
        Some(Texture::Stripes)
    } else if name == "grid"@ {
        Some(Texture::Grid)
    } else {
        None
    }
}

/// The texture a `--texture` value names.
pub fn parse_texture(name: &str) -> (r: Option<Texture>)
    ensures
        r == texture_spec(name@),
{
    if str_eq(name, "none") {
        Some(Texture::Plain)
    } else if str_eq(name, "rings") {
        Some(Texture::Rings)
    } else if str_eq(name, "stripes") {
        Some(Texture::Stripes)
    } else if str_eq(name, "grid") {
        Some(Texture::Grid)
    } else {
        None
    }
}

/// The frame size a `--size WxH` value gives, starting from `(w, h)`: the
/// text up to the first (lowercase) `x` is the width and the text between
/// the first and second `x` the height; a piece that is missing or not a number
/// keeps its current value.
pub open spec fn size_spec(s: Seq<char>, w: usize, h: usize) -> (usize, usize) {
    let k = index_of(s, 'x') as int;
    let w2 = match parse_usize_spec(s.take(k)) {
        Some(v) => v,
        None => w,
    };
    let h2 = if k < s.len() {
        let rest = s.skip(k + 1);
        match parse_usize_spec(rest.take(index_of(rest, 'x') as int)) {
            Some(v) => v,
            None => h,
        }
    } else {
        h
    };
    (w2, h2)
}

/// `--size WxH`: see [`size_spec`].
pub fn parse_size(spec: &str, w: usize, h: usize) -> (r: (usize, usize))
    ensures
        r == size_spec(spec@, w, h),
{
    let cs = chars_of(spec);
    let n: usize = cs.len();
    let k = find_char(&cs, 0, n, 'x');
    assert(cs@.subrange(0, n as int) =~= spec@);
    assert(spec@.take(k as int) =~= cs@.subrange(0, k as int));
    let w2 = match parse_usize_at(&cs, 0, k) {
        Some(v) => v,
        None => w,
    };
    if k == n {
        return (w2, h);
    }
    let k2 = find_char(&cs, k + 1, n, 'x');
    let ghost rest = spec@.skip(k + 1);
    assert(rest =~= cs@.subrange(k + 1, n as int));
    assert(rest.take(k2 - k - 1) =~= cs@.subrange(k + 1, k2 as int));
    let h2 = match parse_usize_at(&cs, k + 1, k2) {
        Some(v) => v,
        None => h,
    };
    (w2, h2)
}

/// Index of the first `c` in `s` (case-sensitive), or the length.
pub open spec fn index_of(s: Seq<char>, c: char) -> nat
    decreases s.len(),
{
    if s.len() == 0 {
        0
    } else if s[0] == c {
        0
    } else {
        1 + index_of(s.drop_first(), c)
    }
}

proof fn lemma_index_of(s: Seq<char>, c: char, i: int)
    requires
        0 <= i <= s.len(),
        forall|j: int| 0 <= j < i ==> #[trigger] s[j] != c,
        i == s.len() || s[i] == c,
    ensures
        index_of(s, c) == i,
    decreases i,
{
    if i > 0 {
        assert forall|j: int| 0 <= j < i - 1 implies #[trigger] s.drop_first()[j] != c by {
            assert(s.drop_first()[j] == s[j + 1]);
        }
        lemma_index_of(s.drop_first(), c, i - 1);
    }
}

/// `index_of(s[lo..hi], c) + lo`.
fn find_char(s: &Vec<char>, lo: usize, hi: usize, c: char) -> (r: usize)
    requires
        lo <= hi <= s@.len(),
    ensures
        lo <= r <= hi,
        r - lo == index_of(s@.subrange(lo as int, hi as int), c),
{
    let mut i: usize = lo;
    while i < hi && s[i] != c
        invariant
            lo <= i <= hi <= s@.len(),
            forall|j: int| lo <= j < i ==> #[trigger] s@[j] != c,
        decreases hi - i,
    {
        i = i + 1;
    }
    proof {
        let t = s@.subrange(lo as int, hi as int);
        assert forall|j: int| 0 <= j < i - lo implies #[trigger] t[j] != c by {
            assert(t[j] == s@[lo + j]);
        }
        if i < hi {
            assert(t[i - lo] == s@[i as int]);
        }
        lemma_index_of(t, c, i - lo);
    }
    i
}

/// The renderer's options.
#[derive(PartialEq, Eq, Debug)]
pub struct RenderArgs {
    /// The STEP file whose companion mesh is rendered.
    pub step: String,
    /// The PNG to write (default: the STEP path with a `.png` extension).
    pub png: Option<String>,
    pub width: usize,
    pub height: usize,
    pub texture: Texture,
}

/// The state of the option scan: step, png, width, height, texture.
pub type ArgState = (Option<Seq<char>>, Option<Seq<char>>, usize, usize, Texture);

/// The value after option `i` (empty when there is none).
pub open spec fn value_after(args: Seq<Seq<char>>, i: int) -> Seq<char> {
    if i + 1 < args.len() {
        args[i + 1]
    } else {
        Seq::<char>::empty()
    }
}

pub open spec fn after_value(args: Seq<Seq<char>>, i: int) -> int {
    if i + 1 < args.len() {
        i + 2
    } else {
        args.len() as int
    }
}

pub open spec fn unknown_texture(v: Seq<char>) -> Seq<char> {
    "render-step: unknown texture '"@ + v + "' (none|rings|stripes|grid)"@
}

pub open spec fn unknown_argument(a: Seq<char>) -> Seq<char> {
    "render-step: unknown argument "@ + a
}

pub open spec fn usage_error() -> Seq<char> {
    "render-step: usage: render-step --step <file.step> [--png out.png]"@
}

/// The option scan from argument `i` on.
pub open spec fn scan_render_args(args: Seq<Seq<char>>, i: int, st: ArgState) -> Result<ArgState, Seq<char>>
    decreases args.len() - i,
{
    if i < 0 || i >= args.len() {
        Ok(st)
    } else {
        let a = args[i];
        let v = value_after(args, i);
        let j = after_value(args, i);
        if a == "--step"@ {
            scan_render_args(args, j, (Some(v), st.1, st.2, st.3, st.4))
        } else if a == "--png"@ {
            scan_render_args(args, j, (st.0, Some(v), st.2, st.3, st.4))
        } else if a == "--size"@ {
            let (w, h) = size_spec(v, st.2, st.3);
            scan_render_args(args, j, (st.0, st.1, w, h, st.4))
        } else if a == "--texture"@ {
            match texture_spec(v) {
                Some(t) => scan_render_args(args, j, (st.0, st.1, st.2, st.3, t)),
                None => Err(unknown_texture(v)),
            }
        } else {
            Err(unknown_argument(a))
        }
    }
}

/// The renderer's command line (without the program name): `--step`,
/// `--png`, `--size WxH` (default 1920x1080) and `--texture`; a value
/// missing at the end reads as empty.  Every error is a usage error.
pub open spec fn render_args_spec(args: Seq<Seq<char>>) -> Result<ArgState, Seq<char>> {
    match scan_render_args(args, 0, (None, None, 1920, 1080, Texture::Plain)) {
        Err(e) => Err(e),
        Ok(st) => if st.0 is None {
            Err(usage_error())
        } else {
            Ok(st)
        },
    }
}

pub fn parse_render_args(args: &Vec<String>) -> (r: Result<RenderArgs, String>)
    ensures
        match render_args_spec(crate::cache::key_views(args@)) {
            Ok(st) => r matches Ok(ra) && Some(ra.step@) == st.0 && opt_view(ra.png) == st.1
                && ra.width == st.2 && ra.height == st.3 && ra.texture == st.4,
            Err(e) => r matches Err(m) && m@ == e,
        },
{
    let ghost av = crate::cache::key_views(args@);
    let mut step: Option<String> = None;
    let mut png: Option<String> = None;
    let mut w: usize = 1920;
    let mut h: usize = 1080;
    let mut texture = Texture::Plain;
    let mut i: usize = 0;
    let n: usize = args.len();
    while i < n
        invariant
            n == args@.len(),
            av == crate::cache::key_views(args@),
            i <= n,
            scan_render_args(av, 0, (None, None, 1920, 1080, Texture::Plain)) == scan_render_args(
                av,
                i as int,
                (opt_view(step), opt_view(png), w, h, texture),
            ),
        decreases n - i,
    {
        let a = args[i].as_str();
        let (v, j) = if i + 1 < n {
            (args[i + 1].as_str(), i + 2)
        } else {
            ("", n)
        };
        proof {
            assert(a@ == av[i as int]);
            if i + 1 < n {
                assert(v@ == av[i + 1]);
            } else {
                assert(v@ =~= Seq::<char>::empty()) by {
                    reveal_strlit("");
                }
            }
        }
        if str_eq(a, "--step") {
            step = Some(String::from_str(v));
        } else if str_eq(a, "--png") {
            png = Some(String::from_str(v));
        } else if str_eq(a, "--size") {
            let (w2, h2) = parse_size(v, w, h);
            w = w2;
            h = h2;
        } else if str_eq(a, "--texture") {
            match parse_texture(v) {
                Some(t) => {
                    texture = t;
                },
                None => {
                    return Err(
                        String::from_str("render-step: unknown texture '").concat(v).concat(
                            "' (none|rings|stripes|grid)",
                        ),
                    );
                },
            }
        } else {
            return Err(String::from_str("render-step: unknown argument ").concat(a));
        }
        i = j;
    }
    match step {
        None => Err(
            String::from_str("render-step: usage: render-step --step <file.step> [--png out.png]"),
        ),
        Some(step) => Ok(RenderArgs { step, png, width: w, height: h, texture }),
    }
}

/// The PNG document `png` writes for an 8-bit RGB image of `width` by
/// `height` pixels with rows `rgb`, at the encoder's default settings.
pub uninterp spec fn png_rgb8(width: u32, height: u32, rgb: Seq<u8>) -> Seq<u8>;

/// `png::Encoder` (8-bit RGB, default settings) writing into memory: the
/// header, the image data and the end chunk.  The encoder refuses exactly
/// an image with no rows or no columns (its header check); RGB at eight
/// bits is a valid combination, a frame of the declared size passes the
/// data check, and writing into a `Vec` cannot fail.  What it returns is
/// named [`png_rgb8`].
#[verifier::external_body]
fn encode_png_rgb8(width: u32, height: u32, rgb: &[u8]) -> (r: Option<Vec<u8>>)
    requires
        rgb@.len() == width * height * 3,
    ensures
        width == 0 || height == 0 ==> r is None,
        width > 0 && height > 0 ==> r is Some,
        r matches Some(b) ==> b@ == png_rgb8(width, height, rgb@),
{
    let mut bytes: Vec<u8> = Vec::new();
    let mut enc = png::Encoder::new(&mut bytes, width, height);
    enc.set_color(png::ColorType::Rgb);
    enc.set_depth(png::BitDepth::Eight);
    let mut writer = enc.write_header().ok()?;
    writer.write_image_data(rgb).ok()?;
    writer.finish().ok()?;
    Some(bytes)
}

/// The PNG document of an RGB frame of `width` by `height` pixels (three
/// bytes per pixel, row by row), or `None` exactly when it cannot be
/// encoded: a size that does not fit the format's 32-bit fields, an empty
/// image, or a frame whose length does not match the size.
pub fn encode_png(width: usize, height: usize, rgb: &[u8]) -> (r: Option<Vec<u8>>)
    ensures
        (width > u32::MAX || height > u32::MAX || width == 0 || height == 0 || rgb@.len() != width
            * height * 3) <==> r is None,
        r matches Some(b) ==> b@ == png_rgb8(width as u32, height as u32, rgb@),
{
    if width > 0xffff_ffffusize || height > 0xffff_ffffusize || width == 0 || height == 0 {
        return None;
    }
    if rgb.len() % 3 != 0 || rgb.len() / 3 % width != 0 || rgb.len() / 3 / width != height {
        proof {
            lemma_frame_length(rgb@.len() as int, width as int, height as int);
        }
        return None;
    }
    proof {
        lemma_frame_length(rgb@.len() as int, width as int, height as int);
    }
    encode_png_rgb8(width as u32, height as u32, rgb)
}

/// `len` is the length of a `w` by `h` RGB frame exactly when it divides
/// into `h` rows of `w` three-byte pixels.
proof fn lemma_frame_length(len: int, w: int, h: int)
    requires
        len >= 0,
        w > 0,
        h > 0,
    ensures
        (len == w * h * 3) <==> (len % 3 == 0 && (len / 3) % w == 0 && (len / 3) / w == h),
{
    if len == w * h * 3 {
        lemma_fundamental_div_mod_converse(len, 3, w * h, 0);
        assert(w * h == h * w) by (nonlinear_arith);
        lemma_fundamental_div_mod_converse(w * h, w, h, 0);
    }
    if len % 3 == 0 && (len / 3) % w == 0 && (len / 3) / w == h {
        lemma_fundamental_div_mod(len, 3);
        lemma_fundamental_div_mod(len / 3, w);
        assert(len == w * h * 3) by (nonlinear_arith)
            requires
                len == 3 * (len / 3) + len % 3,
                len % 3 == 0,
                len / 3 == w * ((len / 3) / w) + (len / 3) % w,
                (len / 3) % w == 0,
                (len / 3) / w == h,
        ;
    }
}

/// The path `std::path::Path::with_extension` gives for `path` and `ext`.
pub uninterp spec fn path_with_extension(path: Seq<char>, ext: Seq<char>) -> Seq<char>;

/// Whether `ext` holds no path separator: `/`, nor the backslash, which
/// is one too on some targets.
pub open spec fn no_separator(ext: Seq<char>) -> bool {
    forall|i: int| 0 <= i < ext.len() ==> #[trigger] ext[i] != '/' && ext[i] != '\\'
}

/// `Path::new(path).with_extension(ext)`, as text: the path with the
/// extension of its file name replaced by (or extended with) `ext`.  The
/// result of a UTF-8 path and extension is UTF-8, so the text conversion
/// loses nothing.  Setting an extension that holds a path separator
/// panics, so `ext` holds none.
#[verifier::external_body]
fn with_extension(path: &str, ext: &str) -> (r: String)
    requires
        no_separator(ext@),
    ensures
        r@ == path_with_extension(path@, ext@),
{
    std::path::Path::new(path).with_extension(ext).to_string_lossy().into_owned()
}

/// The files a render reads and writes: the PNG (the `--png` path, else
/// the STEP path with a `.png` extension) and the companion mesh beside
/// the STEP file (its path with a `.ply` extension).
pub fn output_paths(args: &RenderArgs) -> (r: (String, String))
    ensures
        r.0@ == match args.png {
            Some(p) => p@,
            None => path_with_extension(args.step@, "png"@),
        },
        r.1@ == path_with_extension(args.step@, "ply"@),
{
    proof {
        reveal_strlit("png");
        reveal_strlit("ply");
    }
    let png = match &args.png {
        Some(p) => p.clone(),
        None => with_extension(args.step.as_str(), "png"),
    };
    (png, with_extension(args.step.as_str(), "ply"))
}

} // verus!
