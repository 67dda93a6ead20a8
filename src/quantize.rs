//! The fixed palette and the reduction of true color to it.
use vstd::prelude::*;

verus! {

/// Number of levels of channel `ch` (0 red, 1 green, 2 blue): 8, 8 and 4,
/// which gives 256 palette entries.
pub open spec fn levels(ch: int) -> int {
    if ch == 2 { 4 } else { 8 }
}

/// Level of channel value `v` among `n` levels: `round(v * (n - 1) / 255)`,
/// kept within `0..n`.
pub open spec fn level(v: int, n: int) -> int {
    let l = (2 * v * (n - 1) + 255) / 510;
    if l < 0 { 0 } else if l > n - 1 { n - 1 } else { l }
}

/// The channel value that stands for level `l` of `n`: `round(l * 255 / (n - 1))`.
pub open spec fn level_value(l: int, n: int) -> int {
    (510 * l + (n - 1)) / (2 * (n - 1))
}

/// Level `l` of `n` on the 0 to 100 scale: `round(l * 100 / (n - 1))`.
pub open spec fn level_percent(l: int, n: int) -> int {
    (200 * l + (n - 1)) / (2 * (n - 1))
}

/// Palette index of a color: red level, green level, blue level, in that
/// order of significance.
pub open spec fn color_index(r: int, g: int, b: int) -> int {
    level(r, 8) * 32 + level(g, 8) * 4 + level(b, 4)
}

/// The 0 to 100 scaled components of palette entry `i`.
pub open spec fn palette_color(i: int) -> (int, int, int) {
    (level_percent(i / 32, 8), level_percent((i / 4) % 8, 8), level_percent(i % 4, 4))
}

/// The 256-entry palette: for each index, its 0 to 100 scaled red, green and
/// blue components.
pub struct Palette {
    pub colors: Vec<(u8, u8, u8)>,
}

impl Palette {
    pub open spec fn wf(&self) -> bool {
        &&& self.colors@.len() == 256
        &&& forall|i: int|
            0 <= i < 256 ==> {
                let (r, g, b) = #[trigger] self.colors@[i];
                (r as int, g as int, b as int) == palette_color(i)
            }
    }

    /// Builds the palette.
    pub fn new() -> (p: Palette)
        ensures
            p.wf(),
    {
        let mut colors: Vec<(u8, u8, u8)> = Vec::new();
        let mut i: u32 = 0;
        while i < 256
            invariant
                i <= 256,
                colors@.len() == i,
                forall|k: int|
                    0 <= k < i ==> {
                        let (r, g, b) = #[trigger] colors@[k];
                        (r as int, g as int, b as int) == palette_color(k)
                    },
            decreases 256 - i,
        {
            let r = percent_of_level(i / 32, 8);
            let g = percent_of_level((i / 4) % 8, 8);
            let b = percent_of_level(i % 4, 4);
            colors.push((r, g, b));
            i = i + 1;
        }
        Palette { colors }
    }
}

fn percent_of_level(l: u32, n: u32) -> (r: u8)
    requires
        2 <= n <= 8,
        l < n,
    ensures
        r == level_percent(l as int, n as int),
{
    assert(200 * l + (n - 1) <= 100 * (2 * (n - 1)) + (2 * (n - 1))) by (nonlinear_arith)
        requires
            l <= n - 1,
            n >= 2,
    ;
    assert((200 * l + (n - 1)) / (2 * (n - 1)) <= 101) by (nonlinear_arith)
        requires
            200 * l + (n - 1) <= 101 * (2 * (n - 1)),
            n >= 2,
    ;
    ((200 * l + (n - 1)) / (2 * (n - 1))) as u8
}

/// Level of `v` among `n` levels.
pub fn level_of(v: i32, n: u32) -> (r: u32)
    requires
        2 <= n <= 8,
    ensures
        r == level(v as int, n as int),
        r < n,
{
    assert(-30064771072 <= 2 * v * (n - 1) <= 30064771072) by (nonlinear_arith)
        requires
            -2147483648 <= v <= 2147483647,
            2 <= n <= 8,
    ;
    let num: i64 = 2 * (v as i64) * (n as i64 - 1) + 255;
    if num < 0 {
        assert(num / 510 < 0);
        0
    } else {
        let l = num / 510;
        if l > n as i64 - 1 {
            n - 1
        } else {
            l as u32
        }
    }
}

/// Channel value that stands for level `l` of `n`.
pub fn value_of_level(l: u32, n: u32) -> (r: u8)
    requires
        2 <= n <= 8,
        l < n,
    ensures
        r == level_value(l as int, n as int),
{
    assert(510 * l + (n - 1) < 256 * (2 * (n - 1))) by (nonlinear_arith)
        requires
            l <= n - 1,
            n >= 2,
    ;
    assert((510 * l + (n - 1)) / (2 * (n - 1)) < 256) by (nonlinear_arith)
        requires
            510 * l + (n - 1) < 256 * (2 * (n - 1)),
            n >= 2,
    ;
    ((510 * l + (n - 1)) / (2 * (n - 1))) as u8
}

/// Direct policy for one channel value: the representable value nearest to
/// `v` among `n` levels.
pub fn quantize_channel(v: u8, n: u32) -> (r: u8)
    requires
        2 <= n <= 8,
    ensures
        0 <= level(v as int, n as int) < n,
        r == level_value(level(v as int, n as int), n as int),
{
    value_of_level(level_of(v as i32, n), n)
}

/// Palette index of the color `(r, g, b)`.
pub fn palette_index(r: u8, g: u8, b: u8) -> (i: u8)
    ensures
        i == color_index(r as int, g as int, b as int),
{
    let lr = level_of(r as i32, 8);
    let lg = level_of(g as i32, 8);
    let lb = level_of(b as i32, 4);
    (lr * 32 + lg * 4 + lb) as u8
}

/// Byte `k` of the Direct-policy reduction of the RGBA buffer `px`: each
/// color channel replaced by its nearest representable value, alpha kept.
pub open spec fn direct_byte(px: Seq<u8>, k: int) -> int {
    let ch = k % 4;
    if ch == 3 {
        px[k] as int
    } else {
        level_value(level(px[k] as int, levels(ch)), levels(ch))
    }
}

/// Direct policy over a whole RGBA buffer, with no error feedback.
pub fn quantize_direct(px: &Vec<u8>) -> (r: Vec<u8>)
    ensures
        r@.len() == px@.len(),
        forall|k: int| 0 <= k < px@.len() ==> #[trigger] r@[k] as int == direct_byte(px@, k),
{
    let n = px.len();
    let mut out: Vec<u8> = Vec::new();
    let mut k: usize = 0;
    while k < n
        invariant
            n == px@.len(),
            k <= n,
            out@.len() == k,
            forall|j: int| 0 <= j < k ==> #[trigger] out@[j] as int == direct_byte(px@, j),
        decreases n - k,
    {
        let ch = k % 4;
        let v = if ch == 3 {
            px[k]
        } else {
            quantize_channel(px[k], if ch == 2 { 4 } else { 8 })
        };
        out.push(v);
        k = k + 1;
    }
    out
}

} // verus!
