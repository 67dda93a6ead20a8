//! Error-diffusion (Floyd-Steinberg) reduction to the palette, in exact
//! integer arithmetic.
use vstd::prelude::*;
use crate::quantize::{level, level_of, level_value, levels, value_of_level};

verus! {

/// `k / 16` of the residual `r`, rounded toward zero.
pub open spec fn share(r: int, k: int) -> int {
    if r >= 0 { k * r / 16 } else { -((k * -r) / 16) }
}

/// What the right-hand neighbor receives: nominally `7 / 16`, in fact the
/// residual less the three shares that go to the row below, so that the
/// four shares add up to the residual exactly.
pub open spec fn right_share(r: int) -> int {
    r - share(r, 3) - share(r, 5) - share(r, 1)
}

/// Error that pixel `p` (row-major, rows `w` wide) of channel `ch` receives
/// from the pixels before it: from its left neighbor, and from the three
/// neighbors above (above-right `3 / 16`, above `5 / 16`, above-left `1 / 16`).
pub open spec fn incoming(px: Seq<u8>, w: int, ch: int, n: int, p: int) -> int
    decreases p, 0int,
{
    if p < 0 || w <= 0 {
        0
    } else {
        let x = p % w;
        (if x > 0 && p >= 1 { right_share(residual(px, w, ch, n, p - 1)) } else { 0 }) + (if p
            >= w && x + 1 < w {
            share(residual(px, w, ch, n, p - w + 1), 3)
        } else {
            0
        }) + (if p >= w { share(residual(px, w, ch, n, p - w), 5) } else { 0 }) + (if p >= w + 1
            && x > 0 {
            share(residual(px, w, ch, n, p - w - 1), 1)
        } else {
            0
        })
    }
}

/// Channel `ch` of pixel `p` with the error it receives added.
pub open spec fn adjusted(px: Seq<u8>, w: int, ch: int, n: int, p: int) -> int
    decreases p, 1int,
{
    if p < 0 || w <= 0 {
        0
    } else {
        px[p * 4 + ch] + incoming(px, w, ch, n, p)
    }
}

/// The value chosen for channel `ch` of pixel `p`.
pub open spec fn diffused_value(px: Seq<u8>, w: int, ch: int, n: int, p: int) -> int {
    level_value(level(adjusted(px, w, ch, n, p), n), n)
}

/// The residual of pixel `p`: adjusted value less chosen value.
pub open spec fn residual(px: Seq<u8>, w: int, ch: int, n: int, p: int) -> int
    decreases p, 2int,
{
    if p < 0 || w <= 0 {
        0
    } else {
        adjusted(px, w, ch, n, p) - level_value(level(adjusted(px, w, ch, n, p), n), n)
    }
}

/// Byte `k` of the diffused reduction of the RGBA buffer `px`, rows `w` wide.
pub open spec fn diffused_byte(px: Seq<u8>, w: int, k: int) -> int {
    let ch = k % 4;
    if ch == 3 {
        px[k] as int
    } else {
        diffused_value(px, w, ch, levels(ch), k / 4)
    }
}

proof fn lemma_share_bounds(r: int)
    requires
        -42 <= r <= 42,
    ensures
        -7 <= share(r, 3) <= 7,
        -13 <= share(r, 5) <= 13,
        -2 <= share(r, 1) <= 2,
        -20 <= right_share(r) <= 20,
{
}

proof fn lemma_residual_bound(v: int, n: int)
    requires
        n == 4 || n == 8,
        -42 <= v <= 255 + 42,
    ensures
        0 <= level(v, n) < n,
        0 <= level_value(level(v, n), n) <= 255,
        -42 <= v - level_value(level(v, n), n) <= 42,
{
    let l = level(v, n);
    if n == 4 {
        assert(2 * v * (n - 1) == 6 * v) by (nonlinear_arith)
            requires
                n == 4,
        ;
        vstd::arithmetic::div_mod::lemma_fundamental_div_mod(6 * v + 255, 510);
        vstd::arithmetic::div_mod::lemma_fundamental_div_mod(510 * l + 3, 6);
    } else {
        assert(2 * v * (n - 1) == 14 * v) by (nonlinear_arith)
            requires
                n == 8,
        ;
        vstd::arithmetic::div_mod::lemma_fundamental_div_mod(14 * v + 255, 510);
        vstd::arithmetic::div_mod::lemma_fundamental_div_mod(510 * l + 7, 14);
    }
}

/// Diffusion stays bounded: each residual is split into four shares that add
/// up to it exactly, and no residual or received error ever leaves the range
/// -42 to 42, however large the image.
pub proof fn lemma_diffusion_conserves(px: Seq<u8>, w: int, ch: int, n: int, p: int)
    requires
        w > 0,
        n == 4 || n == 8,
    ensures
        -42 <= incoming(px, w, ch, n, p) <= 42,
        -42 <= residual(px, w, ch, n, p) <= 42,
        ({
            let r = residual(px, w, ch, n, p);
            right_share(r) + share(r, 3) + share(r, 5) + share(r, 1) == r
        }),
    decreases p,
{
    if p >= 0 {
        let x = p % w;
        if x > 0 && p >= 1 {
            lemma_diffusion_conserves(px, w, ch, n, p - 1);
            lemma_share_bounds(residual(px, w, ch, n, p - 1));
        }
        if p >= w && x + 1 < w {
            lemma_diffusion_conserves(px, w, ch, n, p - w + 1);
            lemma_share_bounds(residual(px, w, ch, n, p - w + 1));
        }
        if p >= w {
            lemma_diffusion_conserves(px, w, ch, n, p - w);
            lemma_share_bounds(residual(px, w, ch, n, p - w));
        }
        if p > w && x > 0 {
            lemma_diffusion_conserves(px, w, ch, n, p - w - 1);
            lemma_share_bounds(residual(px, w, ch, n, p - w - 1));
        }
        lemma_residual_bound(adjusted(px, w, ch, n, p), n);
    }
}

/// Sum of `f` over `lo..hi`.
pub open spec fn sum_of(f: spec_fn(int) -> int, lo: int, hi: int) -> int
    decreases hi - lo,
{
    if lo >= hi {
        0
    } else {
        f(lo) + sum_of(f, lo + 1, hi)
    }
}

proof fn lemma_sum_split(f: spec_fn(int) -> int, lo: int, mid: int, hi: int)
    requires
        lo <= mid <= hi,
    ensures
        sum_of(f, lo, hi) == sum_of(f, lo, mid) + sum_of(f, mid, hi),
    decreases mid - lo,
{
    if lo < mid {
        lemma_sum_split(f, lo + 1, mid, hi);
    }
}

proof fn lemma_sum_zero(f: spec_fn(int) -> int, lo: int, hi: int)
    requires
        forall|p: int| lo <= p < hi ==> #[trigger] f(p) == 0,
    ensures
        sum_of(f, lo, hi) == 0,
    decreases hi - lo,
{
    if lo < hi {
        lemma_sum_zero(f, lo + 1, hi);
    }
}

proof fn lemma_sum_ext(f: spec_fn(int) -> int, g: spec_fn(int) -> int, lo: int, hi: int)
    requires
        forall|p: int| lo <= p < hi ==> #[trigger] f(p) == g(p),
    ensures
        sum_of(f, lo, hi) == sum_of(g, lo, hi),
    decreases hi - lo,
{
    if lo < hi {
        lemma_sum_ext(f, g, lo + 1, hi);
    }
}

proof fn lemma_sum_add(f: spec_fn(int) -> int, g: spec_fn(int) -> int, lo: int, hi: int)
    ensures
        sum_of(|p: int| f(p) + g(p), lo, hi) == sum_of(f, lo, hi) + sum_of(g, lo, hi),
    decreases hi - lo,
{
    if lo < hi {
        lemma_sum_add(f, g, lo + 1, hi);
    }
}

proof fn lemma_sum_sub(f: spec_fn(int) -> int, g: spec_fn(int) -> int, lo: int, hi: int)
    ensures
        sum_of(|p: int| f(p) - g(p), lo, hi) == sum_of(f, lo, hi) - sum_of(g, lo, hi),
    decreases hi - lo,
{
    if lo < hi {
        lemma_sum_sub(f, g, lo + 1, hi);
    }
}

proof fn lemma_sum_shift(f: spec_fn(int) -> int, k: int, lo: int, hi: int)
    ensures
        sum_of(|p: int| f(p + k), lo, hi) == sum_of(f, lo + k, hi + k),
    decreases hi - lo,
{
    if lo < hi {
        lemma_sum_shift(f, k, lo + 1, hi);
    }
}

/// Moving each value of `g` back by `k` places: what `g` holds on `0..n`
/// is what lands on `0..n` from `k` places further on, when `g` is 0 below `k`.
proof fn lemma_sum_reindex(g: spec_fn(int) -> int, k: int, n: int)
    requires
        k >= 0,
        n >= 0,
        forall|t: int| t < k ==> #[trigger] g(t) == 0,
    ensures
        sum_of(g, 0, n) == sum_of(|p: int| if p + k < n { g(p + k) } else { 0 }, 0, n),
{
    let h = |p: int| if p + k < n { g(p + k) } else { 0 };
    if k >= n {
        lemma_sum_zero(g, 0, n);
        lemma_sum_zero(h, 0, n);
    } else {
        lemma_sum_split(g, 0, k, n);
        lemma_sum_zero(g, 0, k);
        lemma_sum_shift(g, k, 0, n - k);
        lemma_sum_ext(|p: int| g(p + k), h, 0, n - k);
        lemma_sum_split(h, 0, n - k, n);
        lemma_sum_zero(h, n - k, n);
    }
}

/// Error that pixel `t` receives from its left neighbor.
pub open spec fn from_left(px: Seq<u8>, w: int, ch: int, n: int, t: int) -> int {
    if t % w > 0 && t >= 1 { right_share(residual(px, w, ch, n, t - 1)) } else { 0 }
}

/// Error that pixel `t` receives from the pixel above and to its right.
pub open spec fn from_above_right(px: Seq<u8>, w: int, ch: int, n: int, t: int) -> int {
    if t >= w && t % w + 1 < w { share(residual(px, w, ch, n, t - w + 1), 3) } else { 0 }
}

/// Error that pixel `t` receives from the pixel above it.
pub open spec fn from_above(px: Seq<u8>, w: int, ch: int, n: int, t: int) -> int {
    if t >= w { share(residual(px, w, ch, n, t - w), 5) } else { 0 }
}

/// Error that pixel `t` receives from the pixel above and to its left.
pub open spec fn from_above_left(px: Seq<u8>, w: int, ch: int, n: int, t: int) -> int {
    if t >= w + 1 && t % w > 0 { share(residual(px, w, ch, n, t - w - 1), 1) } else { 0 }
}

/// The part of pixel `p`'s residual that reaches pixels of an image of
/// `count` pixels: the shares whose receiving neighbor exists.
pub open spec fn handed_on(px: Seq<u8>, w: int, ch: int, n: int, p: int, count: int) -> int {
    (if p + 1 < count { from_left(px, w, ch, n, p + 1) } else { 0 }) + (if p + w - 1 < count {
        from_above_right(px, w, ch, n, p + w - 1)
    } else {
        0
    }) + (if p + w < count { from_above(px, w, ch, n, p + w) } else { 0 }) + (if p + w + 1 < count {
        from_above_left(px, w, ch, n, p + w + 1)
    } else {
        0
    })
}

/// The part of pixel `p`'s residual that falls off the edges of the image.
pub open spec fn dropped(px: Seq<u8>, w: int, ch: int, n: int, p: int, count: int) -> int {
    residual(px, w, ch, n, p) - handed_on(px, w, ch, n, p, count)
}

/// Diffusion has no net bias: over an image of `count` pixels (rows `w`
/// wide), the input values of a channel add up to the chosen values plus the
/// error that fell off the image's edges, exactly.
pub proof fn lemma_diffusion_no_bias(px: Seq<u8>, w: int, ch: int, n: int, count: int)
    requires
        w > 0,
        count >= 0,
    ensures
        sum_of(|p: int| px[p * 4 + ch] - diffused_value(px, w, ch, n, p), 0, count) == sum_of(
            |p: int| dropped(px, w, ch, n, p, count),
            0,
            count,
        ),
{
    let r = |p: int| residual(px, w, ch, n, p);
    let e = |p: int| incoming(px, w, ch, n, p);
    let fl = |t: int| from_left(px, w, ch, n, t);
    let far = |t: int| from_above_right(px, w, ch, n, t);
    let fa = |t: int| from_above(px, w, ch, n, t);
    let fal = |t: int| from_above_left(px, w, ch, n, t);
    let hl = |p: int| if p + 1 < count { fl(p + 1) } else { 0 };
    let har = |p: int| if p + (w - 1) < count { far(p + (w - 1)) } else { 0 };
    let ha = |p: int| if p + w < count { fa(p + w) } else { 0 };
    let hal = |p: int| if p + (w + 1) < count { fal(p + (w + 1)) } else { 0 };
    let h = |p: int| handed_on(px, w, ch, n, p, count);
    // Each side as residuals less what was received or handed on.
    lemma_sum_ext(
        |p: int| px[p * 4 + ch] - diffused_value(px, w, ch, n, p),
        |p: int| r(p) - e(p),
        0,
        count,
    );
    lemma_sum_sub(r, e, 0, count);
    lemma_sum_ext(|p: int| dropped(px, w, ch, n, p, count), |p: int| r(p) - h(p), 0, count);
    lemma_sum_sub(r, h, 0, count);
    // What is received, by direction.
    let e12 = |p: int| fl(p) + far(p);
    let e123 = |p: int| e12(p) + fa(p);
    lemma_sum_add(fl, far, 0, count);
    lemma_sum_add(e12, fa, 0, count);
    lemma_sum_add(e123, fal, 0, count);
    lemma_sum_ext(e, |p: int| e123(p) + fal(p), 0, count);
    // What is handed on, by direction.
    let h12 = |p: int| hl(p) + har(p);
    let h123 = |p: int| h12(p) + ha(p);
    lemma_sum_add(hl, har, 0, count);
    lemma_sum_add(h12, ha, 0, count);
    lemma_sum_add(h123, hal, 0, count);
    lemma_sum_ext(h, |p: int| h123(p) + hal(p), 0, count);
    // Each direction is the same sum, indexed by giver instead of receiver.
    lemma_sum_reindex(fl, 1, count);
    lemma_sum_ext(|p: int| if p + 1 < count { fl(p + 1) } else { 0 }, hl, 0, count);
    lemma_sum_reindex(far, w - 1, count);
    lemma_sum_ext(|p: int| if p + (w - 1) < count { far(p + (w - 1)) } else { 0 }, har, 0, count);
    lemma_sum_reindex(fa, w, count);
    lemma_sum_ext(|p: int| if p + w < count { fa(p + w) } else { 0 }, ha, 0, count);
    lemma_sum_reindex(fal, w + 1, count);
    lemma_sum_ext(|p: int| if p + (w + 1) < count { fal(p + (w + 1)) } else { 0 }, hal, 0, count);
}

fn share_of(r: i32, k: i32) -> (s: i32)
    requires
        -42 <= r <= 42,
        1 <= k <= 5,
    ensures
        s == share(r as int, k as int),
{
    assert(-210 <= k * r <= 210 && -210 <= k * -r <= 210) by (nonlinear_arith)
        requires
            -42 <= r <= 42,
            1 <= k <= 5,
    ;
    if r >= 0 {
        k * r / 16
    } else {
        -((k * -r) / 16)
    }
}

/// The error that pixel `p` receives, from the residuals `res` of the
/// pixels before it.
fn incoming_error(res: &Vec<i32>, Ghost(px): Ghost<Seq<u8>>, w: usize, ch: usize, n: u32, p: usize) -> (e: i32)
    requires
        w > 0,
        res@.len() == p,
        forall|q: int|
            0 <= q < p ==> #[trigger] res@[q] as int == residual(px, w as int, ch as int, n as int, q)
                && -42 <= res@[q] <= 42,
    ensures
        e == incoming(px, w as int, ch as int, n as int, p as int),
        -42 <= e <= 42,
{
    let x = p % w;
    let e_left = if x > 0 && p >= 1 {
        let r = res[p - 1];
        proof {
            lemma_share_bounds(r as int);
        }
        r - share_of(r, 3) - share_of(r, 5) - share_of(r, 1)
    } else {
        0
    };
    let e_up_right = if p >= w && x + 1 < w {
        let r = res[p - w + 1];
        proof {
            lemma_share_bounds(r as int);
        }
        share_of(r, 3)
    } else {
        0
    };
    let e_up = if p >= w {
        let r = res[p - w];
        proof {
            lemma_share_bounds(r as int);
        }
        share_of(r, 5)
    } else {
        0
    };
    let e_up_left = if p > w && x > 0 {
        let r = res[p - w - 1];
        proof {
            lemma_share_bounds(r as int);
        }
        share_of(r, 1)
    } else {
        0
    };
    e_left + e_up_right + e_up + e_up_left
}

/// One channel of the diffusion over the RGBA buffer `px`, rows `w` pixels
/// wide: the chosen value of every pixel, in row-major order.
fn diffuse_channel(px: &Vec<u8>, w: usize, ch: usize, n: u32) -> (r: Vec<u8>)
    requires
        w > 0,
        ch < 3,
        n == levels(ch as int),
    ensures
        r@.len() == px@.len() / 4,
        forall|p: int|
            0 <= p < px@.len() / 4 ==> #[trigger] r@[p] as int == diffused_value(
                px@,
                w as int,
                ch as int,
                n as int,
                p,
            ),
{
    let len = px.len();
    let npix = len / 4;
    let mut res: Vec<i32> = Vec::new();
    let mut out: Vec<u8> = Vec::new();
    let mut p: usize = 0;
    while p < npix
        invariant
            len == px@.len(),
            npix == len / 4,
            w > 0,
            ch < 3,
            n == levels(ch as int),
            p <= npix,
            res@.len() == p,
            out@.len() == p,
            forall|q: int|
                0 <= q < p ==> #[trigger] res@[q] as int == residual(
                    px@,
                    w as int,
                    ch as int,
                    n as int,
                    q,
                ) && -42 <= res@[q] <= 42,
            forall|q: int|
                0 <= q < p ==> #[trigger] out@[q] as int == diffused_value(
                    px@,
                    w as int,
                    ch as int,
                    n as int,
                    q,
                ),
        decreases npix - p,
    {
        let e = incoming_error(&res, Ghost(px@), w, ch, n, p);
        let v = px[p * 4 + ch] as i32 + e;
        assert(v == adjusted(px@, w as int, ch as int, n as int, p as int));
        proof {
            lemma_residual_bound(v as int, n as int);
        }
        let q = value_of_level(level_of(v, n), n);
        let r = v - q as i32;
        res.push(r);
        out.push(q);
        p = p + 1;
    }
    out
}

/// Error-diffusion policy over a whole RGBA buffer of rows `w` pixels wide:
/// pixels in row-major order, each channel with the error it receives added
/// and then reduced as the Direct policy does, the residual handed on to the
/// neighbors not yet visited; alpha kept.
pub fn quantize_diffused(px: &Vec<u8>, w: u32) -> (r: Vec<u8>)
    requires
        w > 0,
    ensures
        r@.len() == px@.len() / 4 * 4,
        forall|k: int| 0 <= k < r@.len() ==> #[trigger] r@[k] as int == diffused_byte(px@, w as int, k),
{
    let red = diffuse_channel(px, w as usize, 0, 8);
    let green = diffuse_channel(px, w as usize, 1, 8);
    let blue = diffuse_channel(px, w as usize, 2, 4);
    let len = px.len();
    let npix = len / 4;
    let mut out: Vec<u8> = Vec::new();
    let mut p: usize = 0;
    while p < npix
        invariant
            len == px@.len(),
            npix == px@.len() / 4,
            red@.len() == npix,
            green@.len() == npix,
            blue@.len() == npix,
            forall|q: int| 0 <= q < npix ==> #[trigger] red@[q] as int == diffused_value(px@, w as int, 0, 8, q),
            forall|q: int| 0 <= q < npix ==> #[trigger] green@[q] as int == diffused_value(px@, w as int, 1, 8, q),
            forall|q: int| 0 <= q < npix ==> #[trigger] blue@[q] as int == diffused_value(px@, w as int, 2, 4, q),
            p <= npix,
            out@.len() == p * 4,
            forall|k: int| 0 <= k < out@.len() ==> #[trigger] out@[k] as int == diffused_byte(px@, w as int, k),
        decreases npix - p,
    {
        let ghost before = out@;
        out.push(red[p]);
        out.push(green[p]);
        out.push(blue[p]);
        out.push(px[p * 4 + 3]);
        assert forall|k: int| 0 <= k < out@.len() implies #[trigger] out@[k] as int == diffused_byte(px@, w as int, k) by {
            if k >= p * 4 {
                vstd::arithmetic::div_mod::lemma_fundamental_div_mod_converse(k, 4, p as int, k - p * 4);
            } else {
                assert(out@[k] == before[k]);
            }
        }
        p = p + 1;
    }
    out
}

} // verus!
