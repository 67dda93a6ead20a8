//! Encoding of an RGBA raster as a palette-indexed sixel stream.
use vstd::prelude::*;
use itertools::Itertools;
use crate::quantize::{color_index, palette_color, palette_index, Palette};
use crate::parallel::par_map_indices;
use crate::resample::lemma_pixel_index;
use crate::container::append_range;
use vstd::arithmetic::div_mod::lemma_fundamental_div_mod_converse;

verus! {

/// Decimal digits of `n`, as ASCII bytes.
pub open spec fn decimal(n: nat) -> Seq<u8>
    decreases n,
{
    if n < 10 {
        seq![(48 + n) as u8]
    } else {
        decimal(n / 10) + seq![(48 + n % 10) as u8]
    }
}

/// Appends the decimal digits of `n` to `out`.
pub fn push_decimal(out: &mut Vec<u8>, n: usize)
    ensures
        final(out)@ == old(out)@ + decimal(n as nat),
    decreases n,
{
    if n >= 10 {
        push_decimal(out, n / 10);
    }
    out.push((48 + n % 10) as u8);
    assert(final(out)@ =~= old(out)@ + decimal(n as nat));
}

/// The bytes that a run-length split stands for: each `(v, n)` is `n` copies of `v`.
pub open spec fn expand(runs: Seq<(u8, usize)>) -> Seq<u8>
    decreases runs.len(),
{
    if runs.len() == 0 {
        Seq::empty()
    } else {
        expand(runs.drop_last()) + Seq::new(runs.last().1 as nat, |j: int| runs.last().0)
    }
}

/// Whether `runs` splits `s` into maximal runs of equal bytes.
pub open spec fn is_run_split(runs: Seq<(u8, usize)>, s: Seq<u8>) -> bool {
    &&& expand(runs) == s
    &&& forall|i: int| 0 <= i < runs.len() ==> #[trigger] runs[i].1 > 0
    &&& forall|i: int| 0 < i < runs.len() ==> #[trigger] runs[i - 1].0 != runs[i].0
}

/// Relies on itertools' `chunk_by`: consecutive bytes with equal keys (here
/// the byte itself) form one group, and a new group starts where the key
/// changes; each group is handed out with its length.
#[verifier::external_body]
fn layer_runs(layer: &Vec<u8>) -> (r: Vec<(u8, usize)>)
    ensures
        is_run_split(r@, layer@),
{
    let groups = layer.iter().chunk_by(|b| **b);
    groups.into_iter().map(|(v, g)| (v, g.count())).collect()
}

proof fn lemma_expand_last(runs: Seq<(u8, usize)>)
    requires
        runs.len() > 0,
        runs.last().1 > 0,
    ensures
        expand(runs).len() == expand(runs.drop_last()).len() + runs.last().1,
        expand(runs).last() == runs.last().0,
{
}

/// A byte sequence has only one split into maximal runs.
pub proof fn lemma_run_split_unique(r1: Seq<(u8, usize)>, r2: Seq<(u8, usize)>, s: Seq<u8>)
    requires
        is_run_split(r1, s),
        is_run_split(r2, s),
    ensures
        r1 == r2,
    decreases s.len(),
{
    if r1.len() == 0 || r2.len() == 0 {
        if r1.len() > 0 {
            lemma_expand_last(r1);
        }
        if r2.len() > 0 {
            lemma_expand_last(r2);
        }
        assert(r1 =~= r2);
    } else {
        lemma_expand_last(r1);
        lemma_expand_last(r2);
        let (v, n1) = r1.last();
        let n2 = r2.last().1;
        let p1 = r1.drop_last();
        let p2 = r2.drop_last();
        assert(r2.last().0 == v);
        if n1 < n2 {
            // The byte before r1's last run belongs to r2's last run.
            let k = s.len() - n1 - 1;
            assert(p1.len() > 0);
            lemma_expand_last(p1);
            assert(s[k] == expand(p1).last());
            assert(s[k] == v);
            assert(r1[r1.len() - 2].0 != r1[r1.len() - 1].0);
        } else if n2 < n1 {
            let k = s.len() - n2 - 1;
            assert(p2.len() > 0);
            lemma_expand_last(p2);
            assert(s[k] == expand(p2).last());
            assert(s[k] == v);
            assert(r2[r2.len() - 2].0 != r2[r2.len() - 1].0);
        }
        assert(expand(p1) =~= s.subrange(0, s.len() - n1));
        assert(expand(p2) =~= s.subrange(0, s.len() - n2));
        assert(is_run_split(p1, expand(p1)));
        assert(is_run_split(p2, expand(p1)));
        lemma_run_split_unique(p1, p2, expand(p1));
        assert(r1 =~= p1.push(r1.last()));
        assert(r2 =~= p2.push(r2.last()));
    }
}

/// The sixel character for layer byte `v`.
pub open spec fn sixel_char(v: u8) -> u8 {
    ((v + 63) % 256) as u8
}

/// Rendering of a run of `n` copies of layer byte `v`: a repeat directive
/// `!<n><char>` when the run is longer than 3, else the character `n` times.
pub open spec fn emit(v: u8, n: nat) -> Seq<u8> {
    if n > 3 {
        seq![33u8] + decimal(n) + seq![sixel_char(v)]
    } else {
        Seq::new(n, |j: int| sixel_char(v))
    }
}

/// Rendering of a sequence of runs, in order.
pub open spec fn emit_runs(runs: Seq<(u8, usize)>) -> Seq<u8>
    decreases runs.len(),
{
    if runs.len() == 0 {
        Seq::empty()
    } else {
        emit_runs(runs.drop_last()) + emit(runs.last().0, runs.last().1 as nat)
    }
}

/// Run-length rendering of a layer: the rendering of its maximal runs.
pub open spec fn rle(s: Seq<u8>) -> Seq<u8> {
    emit_runs(choose|runs: Seq<(u8, usize)>| is_run_split(runs, s))
}

/// Appends the rendering of one run.
fn push_run(out: &mut Vec<u8>, v: u8, n: usize)
    ensures
        final(out)@ == old(out)@ + emit(v, n as nat),
{
    let c = v.wrapping_add(63);
    if n > 3 {
        out.push(33);
        push_decimal(out, n);
        out.push(c);
        assert(final(out)@ =~= old(out)@ + emit(v, n as nat));
    } else {
        let mut i: usize = 0;
        while i < n
            invariant
                i <= n <= 3,
                c == sixel_char(v),
                out@ == old(out)@ + Seq::new(i as nat, |j: int| sixel_char(v)),
            decreases n - i,
        {
            out.push(c);
            i = i + 1;
            assert(out@ =~= old(out)@ + Seq::new(i as nat, |j: int| sixel_char(v)));
        }
    }
}

/// Appends the run-length rendering of `layer`.
pub fn push_rle(out: &mut Vec<u8>, layer: &Vec<u8>)
    ensures
        final(out)@ == old(out)@ + rle(layer@),
{
    let runs = layer_runs(layer);
    proof {
        let chosen = choose|r: Seq<(u8, usize)>| is_run_split(r, layer@);
        lemma_run_split_unique(chosen, runs@, layer@);
    }
    let mut i: usize = 0;
    while i < runs.len()
        invariant
            i <= runs@.len(),
            out@ == old(out)@ + emit_runs(runs@.take(i as int)),
        decreases runs@.len() - i,
    {
        let (v, n) = runs[i];
        push_run(out, v, n);
        assert(runs@.take(i + 1).drop_last() =~= runs@.take(i as int));
        i = i + 1;
        assert(out@ =~= old(out)@ + emit_runs(runs@.take(i as int)));
    }
    assert(runs@.take(i as int) =~= runs@);
}

/// A layer of `n` equal bytes is rendered as one run: a single repeat
/// directive with count `n` when `n > 3`, else `n` literal characters; and
/// that run, expanded, is the layer again.
pub proof fn lemma_uniform_layer(v: u8, n: usize)
    ensures
        rle(Seq::new(n as nat, |j: int| v)) == emit(v, n as nat),
        n > 3 ==> rle(Seq::new(n as nat, |j: int| v)) == seq![33u8] + decimal(n as nat) + seq![
            sixel_char(v),
        ],
        n <= 3 ==> rle(Seq::new(n as nat, |j: int| v)) == Seq::new(n as nat, |j: int| sixel_char(v)),
        n > 0 ==> expand(seq![(v, n)]) == Seq::new(n as nat, |j: int| v),
{
    let s = Seq::new(n as nat, |j: int| v);
    let chosen = choose|r: Seq<(u8, usize)>| is_run_split(r, s);
    if n == 0 {
        let e: Seq<(u8, usize)> = Seq::empty();
        assert(expand(e) =~= s);
        assert(is_run_split(e, s));
        lemma_run_split_unique(chosen, e, s);
        assert(emit(v, 0) =~= Seq::<u8>::empty());
    } else {
        let one = seq![(v, n)];
        assert(one.drop_last() =~= Seq::<(u8, usize)>::empty());
        assert(expand(one.drop_last()) == Seq::<u8>::empty());
        assert(emit_runs(one.drop_last()) == Seq::<u8>::empty());
        assert(expand(one) =~= s);
        assert(is_run_split(one, s));
        lemma_run_split_unique(chosen, one, s);
        assert(emit_runs(one) =~= emit(v, n as nat));
    }
}

/// Rows per band.
pub const BAND_HEIGHT: usize = 6;

/// Alpha above which a pixel is drawn.
pub const ALPHA_THRESHOLD: u8 = 128;

/// Whether pixel `(x, y)` of the `w`-wide RGBA buffer `px` is drawn in color `c`.
pub open spec fn drawn_in(px: Seq<u8>, w: int, x: int, y: int, c: int) -> bool {
    let o = (y * w + x) * 4;
    px[o + 3] > ALPHA_THRESHOLD && color_index(px[o] as int, px[o + 1] as int, px[o + 2] as int) == c
}

/// Weight of bit `b`.
pub open spec fn bit_weight(b: int) -> int
    decreases b,
{
    if b <= 0 { 1 } else { 2 * bit_weight(b - 1) }
}

/// The layer byte of color `c` at column `x` of band `band`, over its first
/// `k` rows: bit `i` is set when row `band * 6 + i` exists and its pixel at
/// `x` is drawn in `c`.
pub open spec fn layer_bits(px: Seq<u8>, w: int, h: int, band: int, c: int, x: int, k: int) -> int
    decreases k,
{
    if k <= 0 {
        0
    } else {
        let y = band * BAND_HEIGHT + (k - 1);
        layer_bits(px, w, h, band, c, x, k - 1) + if y < h && drawn_in(px, w, x, y, c) {
            bit_weight(k - 1)
        } else {
            0
        }
    }
}

/// The bit layer of color `c` in band `band`: one byte per column.
pub open spec fn layer(px: Seq<u8>, w: int, h: int, band: int, c: int) -> Seq<u8> {
    Seq::new(w as nat, |x: int| layer_bits(px, w, h, band, c, x, BAND_HEIGHT as int) as u8)
}

/// Whether a layer has a set bit anywhere.
pub open spec fn nonempty(l: Seq<u8>) -> bool {
    exists|x: int| 0 <= x < l.len() && l[x] != 0
}

/// A color's contribution to a band: select the color, render its layer,
/// return to the band's start; nothing for an empty layer.
pub open spec fn color_block(px: Seq<u8>, w: int, h: int, band: int, c: int) -> Seq<u8> {
    let l = layer(px, w, h, band, c);
    if nonempty(l) {
        seq![35u8] + decimal(c as nat) + rle(l) + seq![36u8]
    } else {
        Seq::empty()
    }
}

/// The blocks of the first `k` colors of a band, in color order.
pub open spec fn band_colors(px: Seq<u8>, w: int, h: int, band: int, k: int) -> Seq<u8>
    decreases k,
{
    if k <= 0 {
        Seq::empty()
    } else {
        band_colors(px, w, h, band, k - 1) + color_block(px, w, h, band, k - 1)
    }
}

/// The encoding of one band: its color blocks, then the line feed `-`.
pub open spec fn band_bytes(px: Seq<u8>, w: int, h: int, band: int) -> Seq<u8> {
    band_colors(px, w, h, band, 256) + seq![45u8]
}

proof fn lemma_bits_bound(px: Seq<u8>, w: int, h: int, band: int, c: int, x: int, k: int)
    requires
        0 <= k,
    ensures
        0 <= layer_bits(px, w, h, band, c, x, k) < bit_weight(k),
    decreases k,
{
    if k > 0 {
        lemma_bits_bound(px, w, h, band, c, x, k - 1);
    }
}

proof fn lemma_weights()
    ensures
        bit_weight(0) == 1,
        bit_weight(1) == 2,
        bit_weight(2) == 4,
        bit_weight(3) == 8,
        bit_weight(4) == 16,
        bit_weight(5) == 32,
{
    assert(bit_weight(0) == 1);
    assert(bit_weight(1) == 2);
    assert(bit_weight(2) == 4);
    assert(bit_weight(3) == 8);
    assert(bit_weight(4) == 16);
    assert(bit_weight(5) == 32);
}

proof fn lemma_layer_index(c1: int, x1: int, c2: int, x2: int, w: int)
    requires
        0 <= x1 < w,
        0 <= x2 < w,
        0 <= c1,
        0 <= c2,
        c1 * w + x1 == c2 * w + x2,
    ensures
        c1 == c2 && x1 == x2,
{
    lemma_fundamental_div_mod_converse(c1 * w + x1, w, c1, x1);
    lemma_fundamental_div_mod_converse(c2 * w + x2, w, c2, x2);
}

/// How many of a band's rows column `xx` has taken in, once the scan has
/// reached column `x`, row `bit`.
pub open spec fn rows_done(xx: int, x: int, bit: int) -> int {
    if xx < x { BAND_HEIGHT as int } else if xx == x { bit } else { 0 }
}

/// The bit layers of all 256 colors in band `band`, color after color, each
/// `w` bytes long.
fn build_layers(px: &Vec<u8>, w: u32, h: u32, band: usize) -> (r: Vec<u8>)
    requires
        px@.len() == w * h * 4,
        band * BAND_HEIGHT < h,
        256 * w <= usize::MAX,
    ensures
        r@.len() == 256 * w,
        forall|c: int, x: int|
            0 <= c < 256 && 0 <= x < w ==> #[trigger] r@[c * w + x] == layer_bits(
                px@,
                w as int,
                h as int,
                band as int,
                c,
                x,
                BAND_HEIGHT as int,
            ),
{
    let wu = w as usize;
    let n = px.len();
    let size = 256 * wu;
    let mut layers: Vec<u8> = Vec::new();
    while layers.len() < size
        invariant
            size == 256 * w,
            layers@.len() <= size,
            forall|i: int| 0 <= i < layers@.len() ==> layers@[i] == 0,
        decreases size - layers@.len(),
    {
        layers.push(0);
    }
    let ghost (p, ww, hh, bd) = (px@, w as int, h as int, band as int);
    assert forall|c: int, xx: int| 0 <= c < 256 && 0 <= xx < w implies #[trigger] layers@[c * w + xx]
        == layer_bits(p, ww, hh, bd, c, xx, rows_done(xx, 0, 0)) by {
        assert(0 <= c * w + xx < 256 * w) by (nonlinear_arith)
            requires
                0 <= c < 256,
                0 <= xx < w,
        ;
    }
    let mut x: usize = 0;
    while x < wu
        invariant
            wu == w,
            size == 256 * w,
            layers@.len() == size,
            x <= w,
            px@.len() == w * h * 4,
            n == px@.len(),
            band * BAND_HEIGHT < h,
            (p, ww, hh, bd) == (px@, w as int, h as int, band as int),
            forall|c: int, xx: int|
                0 <= c < 256 && 0 <= xx < w ==> #[trigger] layers@[c * w + xx] == layer_bits(
                    p,
                    ww,
                    hh,
                    bd,
                    c,
                    xx,
                    rows_done(xx, x as int, 0),
                ),
        decreases wu - x,
    {
        let mut bit: usize = 0;
        let mut weight: u8 = 1;
        proof {
            lemma_weights();
        }
        while bit < BAND_HEIGHT
            invariant
                wu == w,
                size == 256 * w,
                layers@.len() == size,
                x < w,
                bit <= BAND_HEIGHT,
                weight == bit_weight(bit as int),
                bit < BAND_HEIGHT ==> weight <= 32,
                px@.len() == w * h * 4,
                n == px@.len(),
                band * BAND_HEIGHT < h,
                (p, ww, hh, bd) == (px@, w as int, h as int, band as int),
                forall|c: int, xx: int|
                    0 <= c < 256 && 0 <= xx < w ==> #[trigger] layers@[c * w + xx] == layer_bits(
                        p,
                        ww,
                        hh,
                        bd,
                        c,
                        xx,
                        rows_done(xx, x as int, bit as int),
                    ),
            decreases BAND_HEIGHT - bit,
        {
            proof {
                lemma_weights();
            }
            let base = band * BAND_HEIGHT;
            if bit < h as usize - base {
                let y = base + bit;
                proof {
                    lemma_pixel_index(y as int, x as int, w as int, h as int, 3);
                }
                let o = (y * wu + x) * 4;
                if px[o + 3] > ALPHA_THRESHOLD {
                    let c = palette_index(px[o], px[o + 1], px[o + 2]) as usize;
                    assert(0 <= c * w + x < 256 * w) by (nonlinear_arith)
                        requires
                            0 <= c < 256,
                            0 <= x < w,
                    ;
                    let i = c * wu + x;
                    proof {
                        lemma_bits_bound(p, ww, hh, bd, c as int, x as int, bit as int);
                    }
                    let ghost before = layers@;
                    let v = layers[i] + weight;
                    layers.set(i, v);
                    assert forall|cc: int, xx: int| 0 <= cc < 256 && 0 <= xx < w implies #[trigger] layers@[cc
                        * w + xx] == layer_bits(p, ww, hh, bd, cc, xx, rows_done(xx, x as int, bit + 1)) by {
                        assert(0 <= cc * w + xx < 256 * w) by (nonlinear_arith)
                            requires
                                0 <= cc < 256,
                                0 <= xx < w,
                        ;
                        if cc * w + xx == i {
                            lemma_layer_index(cc, xx, c as int, x as int, w as int);
                        } else {
                            assert(layers@[cc * w + xx] == before[cc * w + xx]);
                        }
                    }
                } else {
                    assert forall|cc: int, xx: int| 0 <= cc < 256 && 0 <= xx < w implies #[trigger] layers@[cc
                        * w + xx] == layer_bits(p, ww, hh, bd, cc, xx, rows_done(xx, x as int, bit + 1)) by {
                        assert(!drawn_in(p, ww, x as int, y as int, cc));
                    }
                }
            } else {
                assert forall|cc: int, xx: int| 0 <= cc < 256 && 0 <= xx < w implies #[trigger] layers@[cc * w
                    + xx] == layer_bits(p, ww, hh, bd, cc, xx, rows_done(xx, x as int, bit + 1)) by {
                }
            }
            bit = bit + 1;
            weight = weight * 2;
        }
        x = x + 1;
    }
    layers
}

/// Encodes band `band` (rows `6 * band` to `6 * band + 5`) of the `w` by
/// `h` RGBA buffer `px`.
pub fn encode_band(px: &Vec<u8>, w: u32, h: u32, band: usize) -> (r: Vec<u8>)
    requires
        px@.len() == w * h * 4,
        band * BAND_HEIGHT < h,
        256 * w <= usize::MAX,
    ensures
        r@ == band_bytes(px@, w as int, h as int, band as int),
{
    let layers = build_layers(px, w, h, band);
    let wu = w as usize;
    let mut out: Vec<u8> = Vec::new();
    let mut c: usize = 0;
    while c < 256
        invariant
            wu == w,
            c <= 256,
            layers@.len() == 256 * w,
            256 * w <= usize::MAX,
            forall|cc: int, x: int|
                0 <= cc < 256 && 0 <= x < w ==> #[trigger] layers@[cc * w + x] == layer_bits(
                    px@,
                    w as int,
                    h as int,
                    band as int,
                    cc,
                    x,
                    BAND_HEIGHT as int,
                ),
            out@ == band_colors(px@, w as int, h as int, band as int, c as int),
        decreases 256 - c,
    {
        assert(c * w + w <= 256 * w) by (nonlinear_arith)
            requires
                c < 256,
        ;
        let start = c * wu;
        let mut l: Vec<u8> = Vec::new();
        append_range(&mut l, &layers, start, start + wu);
        let ghost lay = layer(px@, w as int, h as int, band as int, c as int);
        assert forall|x: int| 0 <= x < w implies l@[x] == lay[x] by {
            assert(l@[x] == layers@[c * w + x]);
        }
        assert(l@ =~= lay);
        let mut any = false;
        let mut x: usize = 0;
        while x < wu
            invariant
                wu == w,
                l@ == lay,
                lay.len() == w,
                x <= w,
                any <==> exists|k: int| 0 <= k < x && lay[k] != 0,
            decreases wu - x,
        {
            if l[x] != 0 {
                any = true;
            }
            x = x + 1;
        }
        if any {
            out.push(35);
            push_decimal(&mut out, c);
            push_rle(&mut out, &l);
            out.push(36);
        }
        assert(out@ =~= band_colors(px@, w as int, h as int, band as int, c + 1));
        c = c + 1;
    }
    out.push(45);
    out
}

/// Whether pixel `p` (in row-major order) of `px` is drawn in color `c`.
pub open spec fn drawn_pixel(px: Seq<u8>, p: int, c: int) -> bool {
    px[p * 4 + 3] > ALPHA_THRESHOLD && color_index(px[p * 4] as int, px[p * 4 + 1] as int, px[p
        * 4 + 2] as int) == c
}

/// Whether any drawn pixel of the RGBA buffer `px` has color `c`.
pub open spec fn color_used(px: Seq<u8>, c: int) -> bool {
    exists|p: int| 0 <= p < px.len() / 4 && drawn_pixel(px, p, c)
}

/// Definition of palette entry `c`: `#c;2;r;g;b`, components on the 0 to 100 scale.
pub open spec fn palette_def(c: int) -> Seq<u8> {
    let (r, g, b) = palette_color(c);
    seq![35u8] + decimal(c as nat) + seq![59u8, 50, 59] + decimal(r as nat) + seq![59u8]
        + decimal(g as nat) + seq![59u8] + decimal(b as nat)
}

/// Definitions of the used colors among the first `k`, in color order.
pub open spec fn palette_defs(px: Seq<u8>, k: int) -> Seq<u8>
    decreases k,
{
    if k <= 0 {
        Seq::empty()
    } else {
        palette_defs(px, k - 1) + if color_used(px, k - 1) {
            palette_def(k - 1)
        } else {
            Seq::empty()
        }
    }
}

/// Number of bands of a raster `h` rows high.
pub open spec fn band_count(h: int) -> int {
    (h + BAND_HEIGHT - 1) / BAND_HEIGHT as int
}

/// The first `k` bands, in ascending row order.
pub open spec fn bands_upto(px: Seq<u8>, w: int, h: int, k: int) -> Seq<u8>
    decreases k,
{
    if k <= 0 {
        Seq::empty()
    } else {
        bands_upto(px, w, h, k - 1) + band_bytes(px, w, h, k - 1)
    }
}

/// The whole stream: introducer, palette definitions, every band in order,
/// terminator.
pub open spec fn sixel_stream(px: Seq<u8>, w: int, h: int) -> Seq<u8> {
    seq![27u8, 80, 113] + palette_defs(px, 256) + bands_upto(px, w, h, band_count(h)) + seq![
        27u8,
        92,
    ]
}

/// Which colors some drawn pixel of `px` has.
fn used_colors(px: &Vec<u8>) -> (r: Vec<bool>)
    ensures
        r@.len() == 256,
        forall|c: int| 0 <= c < 256 ==> #[trigger] r@[c] == color_used(px@, c),
{
    let mut used: Vec<bool> = Vec::new();
    while used.len() < 256
        invariant
            used@.len() <= 256,
            forall|c: int| 0 <= c < used@.len() ==> !used@[c],
        decreases 256 - used@.len(),
    {
        used.push(false);
    }
    let len = px.len();
    let n = len / 4;
    let mut p: usize = 0;
    while p < n
        invariant
            len == px@.len(),
            n == px@.len() / 4,
            p <= n,
            used@.len() == 256,
            forall|c: int|
                0 <= c < 256 ==> #[trigger] used@[c] == exists|q: int|
                    0 <= q < p && drawn_pixel(px@, q, c),
        decreases n - p,
    {
        let o = p * 4;
        if px[o + 3] > ALPHA_THRESHOLD {
            let c = palette_index(px[o], px[o + 1], px[o + 2]) as usize;
            used.set(c, true);
            assert forall|cc: int| 0 <= cc < 256 implies #[trigger] used@[cc] == exists|q: int|
                0 <= q < p + 1 && drawn_pixel(px@, q, cc) by {
                if cc == c {
                    assert(drawn_pixel(px@, p as int, cc));
                } else {
                    assert(!drawn_pixel(px@, p as int, cc));
                    if exists|q: int| 0 <= q < p + 1 && drawn_pixel(px@, q, cc) {
                        let q = choose|q: int| 0 <= q < p + 1 && drawn_pixel(px@, q, cc);
                        assert(q < p);
                    }
                }
            }
        } else {
            assert forall|cc: int| 0 <= cc < 256 implies #[trigger] used@[cc] == exists|q: int|
                0 <= q < p + 1 && drawn_pixel(px@, q, cc) by {
                assert(!drawn_pixel(px@, p as int, cc));
                if exists|q: int| 0 <= q < p + 1 && drawn_pixel(px@, q, cc) {
                    let q = choose|q: int| 0 <= q < p + 1 && drawn_pixel(px@, q, cc);
                    assert(q < p);
                }
            }
        }
        p = p + 1;
    }
    used
}

/// Appends the introducer and the definitions of the used colors.
fn push_header(out: &mut Vec<u8>, px: &Vec<u8>, palette: &Palette)
    requires
        palette.wf(),
    ensures
        final(out)@ == old(out)@ + seq![27u8, 80, 113] + palette_defs(px@, 256),
{
    out.push(27);
    out.push(80);
    out.push(113);
    let ghost start = out@;
    let used = used_colors(px);
    let mut c: usize = 0;
    while c < 256
        invariant
            c <= 256,
            palette.wf(),
            used@.len() == 256,
            forall|k: int| 0 <= k < 256 ==> #[trigger] used@[k] == color_used(px@, k),
            start == old(out)@ + seq![27u8, 80, 113],
            out@ == start + palette_defs(px@, c as int),
        decreases 256 - c,
    {
        let ghost before = out@;
        if used[c] {
            let (r, g, b) = palette.colors[c];
            assert((r as int, g as int, b as int) == palette_color(c as int));
            out.push(35);
            push_decimal(out, c);
            out.push(59);
            out.push(50);
            out.push(59);
            push_decimal(out, r as usize);
            out.push(59);
            push_decimal(out, g as usize);
            out.push(59);
            push_decimal(out, b as usize);
            assert(out@ =~= before + palette_def(c as int));
        }
        assert(out@ =~= start + palette_defs(px@, c + 1));
        c = c + 1;
    }
}

proof fn lemma_band_in_range(b: int, h: int)
    requires
        0 <= b < band_count(h),
        h >= 0,
    ensures
        b * BAND_HEIGHT < h,
{
    assert(b * 6 < h) by (nonlinear_arith)
        requires
            0 <= b < (h + 5) / 6,
            h >= 0,
    ;
}

/// Encodes the `w` by `h` RGBA buffer `px` as a sixel stream, one parallel
/// task per band; the bands are joined in ascending row order.
pub fn encode_sixel(px: &Vec<u8>, w: u32, h: u32, palette: &Palette) -> (r: Vec<u8>)
    requires
        px@.len() == w * h * 4,
        256 * w <= usize::MAX,
        palette.wf(),
    ensures
        r@ == sixel_stream(px@, w as int, h as int),
{
    let mut out: Vec<u8> = Vec::new();
    push_header(&mut out, px, palette);
    let nb = ((h as u64 + 5) / 6) as usize;
    let band_of = |b: usize| -> (r: Vec<u8>)
        requires
            b < band_count(h as int),
        ensures
            r@ == band_bytes(px@, w as int, h as int, b as int),
        {
            proof {
                lemma_band_in_range(b as int, h as int);
            }
            encode_band(px, w, h, b)
        };
    let bands = par_map_indices(nb, band_of);
    let ghost start = out@;
    let mut b: usize = 0;
    while b < nb
        invariant
            nb == band_count(h as int),
            b <= nb,
            bands@.len() == nb,
            forall|i: int|
                0 <= i < nb ==> #[trigger] bands@[i]@ == band_bytes(px@, w as int, h as int, i),
            out@ == start + bands_upto(px@, w as int, h as int, b as int),
        decreases nb - b,
    {
        assert(bands@[b as int]@ == band_bytes(px@, w as int, h as int, b as int));
        let part = &bands[b];
        append_range(&mut out, part, 0, part.len());
        assert(part@.subrange(0, part@.len() as int) =~= part@);
        assert(out@ =~= start + bands_upto(px@, w as int, h as int, b + 1));
        b = b + 1;
    }
    out.push(27);
    out.push(92);
    assert(out@ =~= sixel_stream(px@, w as int, h as int));
    out
}

/// The same stream as `encode_sixel`, computed band after band on the
/// calling thread.
pub fn encode_sixel_sequential(px: &Vec<u8>, w: u32, h: u32, palette: &Palette) -> (r: Vec<u8>)
    requires
        px@.len() == w * h * 4,
        256 * w <= usize::MAX,
        palette.wf(),
    ensures
        r@ == sixel_stream(px@, w as int, h as int),
{
    let mut out: Vec<u8> = Vec::new();
    push_header(&mut out, px, palette);
    let nb = ((h as u64 + 5) / 6) as usize;
    let ghost start = out@;
    let mut b: usize = 0;
    while b < nb
        invariant
            nb == band_count(h as int),
            b <= nb,
            px@.len() == w * h * 4,
            256 * w <= usize::MAX,
            out@ == start + bands_upto(px@, w as int, h as int, b as int),
        decreases nb - b,
    {
        proof {
            lemma_band_in_range(b as int, h as int);
        }
        let part = encode_band(px, w, h, b);
        append_range(&mut out, &part, 0, part.len());
        assert(part@.subrange(0, part@.len() as int) =~= part@);
        assert(out@ =~= start + bands_upto(px@, w as int, h as int, b + 1));
        b = b + 1;
    }
    out.push(27);
    out.push(92);
    assert(out@ =~= sixel_stream(px@, w as int, h as int));
    out
}

} // verus!
