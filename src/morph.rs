use vstd::prelude::*;
use vstd::arithmetic::div_mod::lemma_fundamental_div_mod;

verus! {

/// Pixel `i` of a `w`-wide, `h`-tall row-major grid is off the one-pixel border.
pub open spec fn interior(w: int, h: int, i: int) -> bool {
    1 <= i % w && i % w < w - 1 && 1 <= i / w && i / w < h - 1
}

/// All nine pixels of the 3x3 square centred on `i` are set.
pub open spec fn all9(m: Seq<bool>, w: int, i: int) -> bool {
    &&& m[i - w - 1] && m[i - w] && m[i - w + 1]
    &&& m[i - 1] && m[i] && m[i + 1]
    &&& m[i + w - 1] && m[i + w] && m[i + w + 1]
}

/// Erosion: an interior pixel stays set iff its whole 3x3 square is set.
pub open spec fn eroded(m: Seq<bool>, w: int, h: int, i: int) -> bool {
    interior(w, h, i) && all9(m, w, i)
}

/// Some pixel of the 3x3 square centred on `i` survives erosion.
pub open spec fn any9_eroded(m: Seq<bool>, w: int, h: int, i: int) -> bool {
    ||| eroded(m, w, h, i - w - 1) || eroded(m, w, h, i - w) || eroded(m, w, h, i - w + 1)
    ||| eroded(m, w, h, i - 1) || eroded(m, w, h, i) || eroded(m, w, h, i + 1)
    ||| eroded(m, w, h, i + w - 1) || eroded(m, w, h, i + w) || eroded(m, w, h, i + w + 1)
}

/// Opening: erosion followed by dilation; the border stays clear.
pub open spec fn opened(m: Seq<bool>, w: int, h: int, i: int) -> bool {
    interior(w, h, i) && any9_eroded(m, w, h, i)
}

/// The 3x3 square around an interior pixel lies inside the grid.
pub proof fn lemma_interior_square(w: int, h: int, i: int)
    requires
        w >= 1,
        h >= 1,
        0 <= i < w * h,
        interior(w, h, i),
    ensures
        i - w - 1 >= 0,
        i + w + 1 < w * h,
{
    lemma_fundamental_div_mod(i, w);
    let q = i / w;
    let r = i % w;
    assert(i + w + 1 < w * h) by (nonlinear_arith)
        requires i == w * q + r, 1 <= r < w - 1, 1 <= q < h - 1, w >= 1;
    assert(i - w - 1 >= 0) by (nonlinear_arith)
        requires i == w * q + r, 1 <= r, 1 <= q, w >= 1;
}

fn is_interior(w: usize, h: usize, i: usize) -> (b: bool)
    requires
        w >= 1,
    ensures
        b == interior(w as int, h as int, i as int),
{
    let x = i % w;
    let y = i / w;
    x >= 1 && x + 1 < w && y >= 1 && y < h && y + 1 < h
}

/// Morphological opening of a `width` x `height` row-major mask with a 3x3
/// square: a pixel is set in the result iff it is off the border and some
/// pixel of its 3x3 square has its own whole 3x3 square set in `mask`.
pub fn morphological_open(mask: &[bool], width: usize, height: usize) -> (r: Vec<bool>)
    requires
        width >= 1,
        height >= 1,
        mask@.len() == width * height,
    ensures
        r@.len() == mask@.len(),
        forall|i: int|
            0 <= i < r@.len() ==> r@[i] == opened(mask@, width as int, height as int, i),
{
    let n = mask.len();
    let w = width;
    let mut e: Vec<bool> = Vec::with_capacity(n);
    let mut i: usize = 0;
    while i < n
        invariant
            n == mask@.len(),
            n == w * height,
            w == width,
            w >= 1,
            height >= 1,
            i <= n,
            e@.len() == i,
            forall|j: int| 0 <= j < i ==> e@[j] == eroded(mask@, w as int, height as int, j),
        decreases n - i,
    {
        if is_interior(w, height, i) {
            proof { lemma_interior_square(w as int, height as int, i as int); }
            let all = mask[i - w - 1] && mask[i - w] && mask[i - w + 1] && mask[i - 1] && mask[i]
                && mask[i + 1] && mask[i + w - 1] && mask[i + w] && mask[i + w + 1];
            e.push(all);
        } else {
            e.push(false);
        }
        i += 1;
    }
    let mut r: Vec<bool> = Vec::with_capacity(n);
    i = 0;
    while i < n
        invariant
            n == mask@.len(),
            n == w * height,
            w == width,
            w >= 1,
            height >= 1,
            i <= n,
            e@.len() == n,
            forall|j: int| 0 <= j < n ==> e@[j] == eroded(mask@, w as int, height as int, j),
            r@.len() == i,
            forall|j: int| 0 <= j < i ==> r@[j] == opened(mask@, w as int, height as int, j),
        decreases n - i,
    {
        if is_interior(w, height, i) {
            proof { lemma_interior_square(w as int, height as int, i as int); }
            let any = e[i - w - 1] || e[i - w] || e[i - w + 1] || e[i - 1] || e[i] || e[i + 1]
                || e[i + w - 1] || e[i + w] || e[i + w + 1];
            r.push(any);
        } else {
            r.push(false);
        }
        i += 1;
    }
    r
}

} // verus!
