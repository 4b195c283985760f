use vstd::prelude::*;
use crate::palette::{
    BaseColor, ColorRange, get_color_ranges, palette, palette_key, key_of, lemma_palette_covers_bases,
    PALETTE_LEN,
};
use crate::raster::{RgbRaster, CurveError, color_mask, create_color_mask, decode_image, decodes_to, decodable,
    decoded_rgb8, jpeg_signature,
};
use crate::morph::{opened, morphological_open};
use crate::components::{kept, filter_connected_components};

verus! {

/// The pixels of one base color that survive opening and component gating,
/// as a row-major mask of the whole image.
#[derive(Clone, Debug)]
pub struct Trace {
    pub base: BaseColor,
    pub name: String,
    pub color: String,
    pub mask: Vec<bool>,
}

/// The traces found in an image, one per selected base color with at least
/// one surviving pixel.
#[derive(Clone, Debug)]
pub struct TraceSet {
    pub width: usize,
    pub height: usize,
    pub palette_size: usize,
    pub traces: Vec<Trace>,
}

/// What Unicode lowercasing yields for `s`.
pub uninterp spec fn lower_of(s: Seq<char>) -> Seq<char>;

/// Relies on str::to_lowercase: the result depends on the characters alone.
#[verifier::external_body]
fn to_lower(s: &String) -> (r: String)
    ensures
        r@ == lower_of(s@),
{
    s.to_lowercase()
}

/// Smallest component kept: `max(1000, floor(W * H / 1000))` pixels.
pub open spec fn min_component_size(npix: int) -> int {
    if npix / 1000 > 1000 {
        npix / 1000
    } else {
        1000
    }
}

pub fn min_component_size_for(width: usize, height: usize) -> (s: usize)
    requires
        width * height <= usize::MAX,
    ensures
        s == min_component_size(width * height),
{
    let n = width * height;
    if n / 1000 > 1000 {
        n / 1000
    } else {
        1000
    }
}

/// A lowercased name selects palette entry `k` when it equals the entry's
/// key or its base-color tag.
pub open spec fn name_selects(lowered: Seq<char>, k: int) -> bool {
    lowered == key_of(k) || lowered == palette()[k].base.spec_name()
}

/// Some name of `names`, compared case-insensitively, selects entry `k`.
pub open spec fn entry_selected(names: Seq<String>, k: int) -> bool {
    exists|i: int| 0 <= i < names.len() && name_selects(lower_of(#[trigger] names[i]@), k)
}

/// The opened mask.
pub open spec fn opened_mask(m: Seq<bool>, w: int, h: int) -> Seq<bool> {
    Seq::new(m.len(), |i: int| opened(m, w, h, i))
}

/// The mask of pixels whose component passes the gates.
pub open spec fn kept_mask(m: Seq<bool>, w: int, min_size: int) -> Seq<bool> {
    Seq::new(m.len(), |i: int| kept(m, w, min_size, i))
}

/// The surviving pixels of palette entry `k` in `img`: color mask, opening,
/// then component gating.
pub open spec fn entry_trace(img: RgbRaster, k: int) -> Seq<bool> {
    kept_mask(
        opened_mask(color_mask(img, palette()[k]), img.width as int, img.height as int),
        img.width as int,
        min_component_size(img.npix()),
    )
}

/// Pixel `i` survives for some selected entry among the first `kk` with base color `b`.
pub open spec fn base_pixel_upto(img: RgbRaster, names: Seq<String>, b: BaseColor, kk: int, i: int) -> bool {
    exists|k: int|
        0 <= k < kk && palette()[k].base == b && entry_selected(names, k) && #[trigger] entry_trace(
            img,
            k,
        )[i]
}

/// The trace mask of base color `b`: pixels that survive for some selected
/// palette entry of that base color.
pub open spec fn base_mask(img: RgbRaster, names: Seq<String>, b: BaseColor) -> Seq<bool> {
    Seq::new(img.npix() as nat, |i: int| base_pixel_upto(img, names, b, PALETTE_LEN as int, i))
}

/// The base colors in their fixed order.
pub open spec fn base_order() -> Seq<BaseColor> {
    seq![
        BaseColor::Red,
        BaseColor::Blue,
        BaseColor::Green,
        BaseColor::Yellow,
        BaseColor::Cyan,
        BaseColor::Magenta,
        BaseColor::Orange,
        BaseColor::Purple,
    ]
}

/// Base color `b` yields a trace: its mask has a pixel.
pub open spec fn base_present(img: RgbRaster, names: Seq<String>, b: BaseColor) -> bool {
    exists|i: int| 0 <= i < img.npix() && #[trigger] base_mask(img, names, b)[i]
}

/// The base colors among the first `r` of the fixed order that yield a trace.
pub open spec fn present_bases(img: RgbRaster, names: Seq<String>, r: int) -> Seq<BaseColor>
    decreases r,
{
    if r <= 0 {
        Seq::empty()
    } else {
        let prev = present_bases(img, names, r - 1);
        if base_present(img, names, base_order()[r - 1]) {
            prev.push(base_order()[r - 1])
        } else {
            prev
        }
    }
}

/// `t` is the trace of base color `b`.
pub open spec fn is_trace_of(img: RgbRaster, names: Seq<String>, t: Trace) -> bool {
    &&& t.mask@ == base_mask(img, names, t.base)
    &&& t.name@ == t.base.spec_name()
    &&& t.color@ == t.base.spec_display()
}

/// `out` is the extraction of `names` from `img`.
pub open spec fn is_extraction(img: RgbRaster, names: Seq<String>, out: TraceSet) -> bool {
    &&& out.width == img.width
    &&& out.height == img.height
    &&& out.palette_size == PALETTE_LEN
    &&& out.traces@.len() == present_bases(img, names, 8).len()
    &&& forall|t: int|
        0 <= t < out.traces@.len() ==> (#[trigger] out.traces@[t]).base == present_bases(
            img,
            names,
            8,
        )[t] && is_trace_of(img, names, out.traces@[t])
}

fn base_at(r: usize) -> (b: BaseColor)
    requires
        r < 8,
    ensures
        b == base_order()[r as int],
{
    if r == 0 {
        BaseColor::Red
    } else if r == 1 {
        BaseColor::Blue
    } else if r == 2 {
        BaseColor::Green
    } else if r == 3 {
        BaseColor::Yellow
    } else if r == 4 {
        BaseColor::Cyan
    } else if r == 5 {
        BaseColor::Magenta
    } else if r == 6 {
        BaseColor::Orange
    } else {
        BaseColor::Purple
    }
}

/// Whether an already lowercased name selects palette entry `k`: it equals
/// the entry's key or its base-color tag.
pub fn name_selects_entry(lowered: &str, k: usize) -> (s: bool)
    requires
        k < PALETTE_LEN,
    ensures
        s == name_selects(lowered@, k as int),
{
    let ranges = get_color_ranges();
    let given = String::from_str(lowered);
    let key = String::from_str(palette_key(k));
    let tag = String::from_str(ranges[k].base.name());
    given == key || given == tag
}

/// Whether some name selects palette entry `k`.
fn is_selected(lowered: &Vec<String>, names: Ghost<Seq<String>>, k: usize) -> (s: bool)
    requires
        k < PALETTE_LEN,
        palette().len() == PALETTE_LEN,
        lowered@.len() == names@.len(),
        forall|i: int| 0 <= i < lowered@.len() ==> lowered@[i]@ == lower_of(names@[i]@),
    ensures
        s == entry_selected(names@, k as int),
{
    let mut i: usize = 0;
    while i < lowered.len()
        invariant
            k < PALETTE_LEN,
            i <= lowered@.len(),
            lowered@.len() == names@.len(),
            forall|j: int| 0 <= j < lowered@.len() ==> lowered@[j]@ == lower_of(names@[j]@),
            forall|j: int| 0 <= j < i ==> !name_selects(lower_of(#[trigger] names@[j]@), k as int),
        decreases lowered@.len() - i,
    {
        if name_selects_entry(lowered[i].as_str(), k) {
            assert(name_selects(lower_of(names@[i as int]@), k as int));
            return true;
        }
        i += 1;
    }
    false
}

fn or_masks(a: &Vec<bool>, m: &Vec<bool>) -> (r: Vec<bool>)
    requires
        a@.len() == m@.len(),
    ensures
        r@.len() == m@.len(),
        forall|i: int| 0 <= i < m@.len() ==> r@[i] == (a@[i] || m@[i]),
{
    let mut r: Vec<bool> = Vec::with_capacity(m.len());
    let mut i: usize = 0;
    while i < m.len()
        invariant
            i <= m@.len(),
            a@.len() == m@.len(),
            r@.len() == i,
            forall|j: int| 0 <= j < i ==> r@[j] == (a@[j] || m@[j]),
        decreases m@.len() - i,
    {
        r.push(a[i] || m[i]);
        i += 1;
    }
    r
}

fn any_set(m: &Vec<bool>) -> (b: bool)
    ensures
        b == exists|i: int| 0 <= i < m@.len() && m@[i],
{
    let mut i: usize = 0;
    while i < m.len()
        invariant
            i <= m@.len(),
            forall|j: int| 0 <= j < i ==> !m@[j],
        decreases m@.len() - i,
    {
        if m[i] {
            return true;
        }
        i += 1;
    }
    false
}

/// The surviving pixels of one palette entry.
fn trace_entry(img: &RgbRaster, c: &ColorRange, Ghost(k): Ghost<int>) -> (f: Vec<bool>)
    requires
        img.wf(),
        img.width >= 1,
        img.height >= 1,
        0 <= k < PALETTE_LEN,
        palette().len() == PALETTE_LEN,
        *c == palette()[k],
    ensures
        f@ == entry_trace(*img, k),
{
    let w = img.width;
    let h = img.height;
    proof {
        reveal(RgbRaster::npix);
    }
    let m = create_color_mask(img, c);
    let o = morphological_open(&m, w, h);
    assert(o@ =~= opened_mask(m@, w as int, h as int));
    let dl = img.data.len();
    assert(w * h <= dl);
    let min_size = min_component_size_for(w, h);
    let f = filter_connected_components(&o, w, h, min_size);
    assert(f@ =~= kept_mask(o@, w as int, min_size as int));
    f
}

/// Taking entry `k` into account adds its surviving pixels when it has base
/// color `b` and is selected, and nothing otherwise.
proof fn lemma_base_pixel_step(img: RgbRaster, names: Seq<String>, b: BaseColor, k: int)
    requires
        0 <= k,
    ensures
        forall|j: int|
            #[trigger] base_pixel_upto(img, names, b, k + 1, j) == (base_pixel_upto(img, names, b, k, j)
                || (palette()[k].base == b && entry_selected(names, k) && entry_trace(img, k)[j])),
{
    assert forall|j: int|
        #[trigger] base_pixel_upto(img, names, b, k + 1, j) == (base_pixel_upto(img, names, b, k, j)
            || (palette()[k].base == b && entry_selected(names, k) && entry_trace(img, k)[j])) by {
        if base_pixel_upto(img, names, b, k + 1, j) {
            let kk = choose|kk: int|
                0 <= kk < k + 1 && palette()[kk].base == b && entry_selected(names, kk)
                    && #[trigger] entry_trace(img, kk)[j];
            if kk < k {
                assert(base_pixel_upto(img, names, b, k, j));
            }
        }
        if palette()[k].base == b && entry_selected(names, k) && entry_trace(img, k)[j] {
            assert(base_pixel_upto(img, names, b, k + 1, j));
        }
    }
}

/// Collects the trace mask of base color `b`.
fn base_trace(img: &RgbRaster, lowered: &Vec<String>, names: Ghost<Seq<String>>, b: BaseColor) -> (acc: Vec<bool>)
    requires
        img.wf(),
        img.width >= 1,
        img.height >= 1,
        lowered@.len() == names@.len(),
        forall|i: int| 0 <= i < lowered@.len() ==> lowered@[i]@ == lower_of(names@[i]@),
    ensures
        acc@ == base_mask(*img, names@, b),
{
    let ranges = get_color_ranges();
    proof {
        reveal(RgbRaster::npix);
    }
    let n = img.data.len() / 3;
    let mut acc: Vec<bool> = Vec::with_capacity(n);
    let mut i: usize = 0;
    while i < n
        invariant
            i <= n,
            acc@.len() == i,
            forall|j: int| 0 <= j < i ==> !acc@[j],
        decreases n - i,
    {
        acc.push(false);
        i += 1;
    }
    let mut k: usize = 0;
    while k < PALETTE_LEN
        invariant
            img.wf(),
            img.width >= 1,
            img.height >= 1,
            ranges@ == palette(),
            palette().len() == PALETTE_LEN,
            n == img.npix(),
            k <= PALETTE_LEN,
            lowered@.len() == names@.len(),
            forall|i: int| 0 <= i < lowered@.len() ==> lowered@[i]@ == lower_of(names@[i]@),
            acc@.len() == n,
            forall|j: int| 0 <= j < n ==> acc@[j] == base_pixel_upto(*img, names@, b, k as int, j),
        decreases PALETTE_LEN - k,
    {
        let ghost a0 = acc@;
        if ranges[k].base == b && is_selected(lowered, names, k) {
            let f = trace_entry(img, &ranges[k], Ghost(k as int));
            proof {
                reveal(RgbRaster::npix);
                assert(f@.len() == n);
            }
            acc = or_masks(&acc, &f);
            proof {
                lemma_base_pixel_step(*img, names@, b, k as int);
                assert forall|j: int| 0 <= j < n implies acc@[j] == base_pixel_upto(
                    *img,
                    names@,
                    b,
                    k + 1,
                    j,
                ) by {
                    assert(f@[j] == entry_trace(*img, k as int)[j]);
                }
            }
        } else {
            proof {
                lemma_base_pixel_step(*img, names@, b, k as int);
            }
        }
        k += 1;
    }
    assert(acc@ =~= base_mask(*img, names@, b));
    acc
}

/// Extracts, for each base color that `selected` names (case-insensitively,
/// by palette key or by base-color tag), the pixels that survive color
/// classification, opening and component gating. Unknown names select
/// nothing; base colors with no surviving pixel yield no trace.
pub fn extract_traces_in(img: &RgbRaster, selected: &[String]) -> (out: TraceSet)
    requires
        img.wf(),
        img.width >= 1,
        img.height >= 1,
    ensures
        is_extraction(*img, selected@, out),
{
    let mut lowered: Vec<String> = Vec::new();
    let mut i: usize = 0;
    while i < selected.len()
        invariant
            i <= selected@.len(),
            lowered@.len() == i,
            forall|j: int| 0 <= j < i ==> lowered@[j]@ == lower_of(selected@[j]@),
        decreases selected@.len() - i,
    {
        lowered.push(to_lower(&selected[i]));
        i += 1;
    }
    let names = Ghost(selected@);
    let mut traces: Vec<Trace> = Vec::new();
    let mut r: usize = 0;
    while r < 8
        invariant
            img.wf(),
            img.width >= 1,
            img.height >= 1,
            names@ == selected@,
            lowered@.len() == names@.len(),
            forall|j: int| 0 <= j < lowered@.len() ==> lowered@[j]@ == lower_of(names@[j]@),
            r <= 8,
            traces@.len() == present_bases(*img, names@, r as int).len(),
            forall|t: int|
                0 <= t < traces@.len() ==> (#[trigger] traces@[t]).base == present_bases(
                    *img,
                    names@,
                    r as int,
                )[t] && is_trace_of(*img, names@, traces@[t]),
        decreases 8 - r,
    {
        let b = base_at(r);
        let acc = base_trace(img, &lowered, names, b);
        let ghost prev = traces@;
        if any_set(&acc) {
            proof {
                reveal(RgbRaster::npix);
                assert(base_present(*img, names@, b));
            }
            traces.push(Trace {
                base: b,
                name: String::from_str(b.name()),
                color: String::from_str(b.display_color()),
                mask: acc,
            });
            proof {
                assert forall|t: int|
                    0 <= t < traces@.len() implies (#[trigger] traces@[t]).base == present_bases(
                        *img,
                        names@,
                        r + 1,
                    )[t] && is_trace_of(*img, names@, traces@[t]) by {
                    if t < prev.len() {
                        assert(traces@[t] == prev[t]);
                    }
                }
            }
        } else {
            proof {
                reveal(RgbRaster::npix);
                if base_present(*img, names@, b) {
                    let j = choose|j: int| 0 <= j < img.npix() && #[trigger] base_mask(*img, names@, b)[j];
                    assert(acc@[j]);
                }
            }
        }
        r += 1;
    }
    TraceSet { width: img.width, height: img.height, palette_size: PALETTE_LEN, traces }
}

/// Decodes an image and extracts the traces of the selected colors.
pub fn extract_traces(image_data: &[u8], selected: &[String]) -> (r: Result<TraceSet, CurveError>)
    ensures
        image_data@.len() == 0 ==> r matches Err(CurveError::EmptyInput),
        image_data@.len() > 0 && !jpeg_signature(image_data@) ==> (r is Ok <==> decodable(
            image_data@,
        )),
        image_data@.len() > 0 && !jpeg_signature(image_data@) ==> match decoded_rgb8(image_data@) {
            Err(m) => r matches Err(CurveError::InvalidImage(s)) && s@ == m,
            Ok(_) => !decodable(image_data@) ==> r matches Err(CurveError::InvalidImage(_)),
        },
        r matches Err(e) ==> (e matches CurveError::EmptyInput && image_data@.len() == 0) || (
        e matches CurveError::InvalidImage(_) && image_data@.len() > 0),
        r matches Ok(out) ==> exists|img: RgbRaster|
            decodes_to(image_data@, img) && #[trigger] is_extraction(img, selected@, out),
{
    match decode_image(image_data) {
        Ok(img) => {
            let out = extract_traces_in(&img, selected);
            assert(decodes_to(image_data@, img));
            let r: Result<TraceSet, CurveError> = Ok(out);
            assert(r matches Ok(o) && is_extraction(img, selected@, o));
            r
        },
        Err(e) => Err(e),
    }
}

/// Extraction is a function of the image and the names: two results that
/// both meet the contract hold the same traces, in the same order.
pub proof fn lemma_extraction_deterministic(img: RgbRaster, names: Seq<String>, a: TraceSet, b: TraceSet)
    requires
        is_extraction(img, names, a),
        is_extraction(img, names, b),
    ensures
        a.width == b.width && a.height == b.height,
        a.traces@.len() == b.traces@.len(),
        forall|t: int|
            0 <= t < a.traces@.len() ==> a.traces@[t].base == b.traces@[t].base
                && a.traces@[t].name@ == b.traces@[t].name@
                && a.traces@[t].color@ == b.traces@[t].color@
                && a.traces@[t].mask@ == b.traces@[t].mask@,
{
    assert forall|t: int| 0 <= t < a.traces@.len() implies a.traces@[t].base == b.traces@[t].base
        && a.traces@[t].name@ == b.traces@[t].name@ && a.traces@[t].color@ == b.traces@[t].color@
        && a.traces@[t].mask@ == b.traces@[t].mask@ by {
        assert(a.traces@[t].base == present_bases(img, names, 8)[t]);
        assert(b.traces@[t].base == present_bases(img, names, 8)[t]);
    }
}

/// Every trace is named after the base-color tag of some palette entry.
pub proof fn lemma_traces_in_palette(img: RgbRaster, names: Seq<String>, out: TraceSet, t: int)
    requires
        is_extraction(img, names, out),
        0 <= t < out.traces@.len(),
    ensures
        exists|k: int|
            0 <= k < palette().len() && out.traces@[t].name@ == (#[trigger] palette()[k]).base.spec_name(),
{
    let b = out.traces@[t].base;
    lemma_palette_covers_bases(b);
    let k = choose|k: int| 0 <= k < palette().len() && (#[trigger] palette()[k]).base == b;
    assert(out.traces@[t].name@ == palette()[k].base.spec_name());
}

/// The size gate of extraction never admits a component under 1000 pixels.
pub proof fn lemma_min_component_size_floor(npix: int)
    ensures
        min_component_size(npix) >= 1000,
{
}

/// Extraction from image bytes that are not JPEG is a function of the bytes
/// and the names: any two results that meet the contract of
/// `extract_traces` hold the same traces, in the same order.
pub proof fn lemma_extraction_from_bytes_deterministic(
    bytes: Seq<u8>,
    names: Seq<String>,
    img1: RgbRaster,
    a: TraceSet,
    img2: RgbRaster,
    b: TraceSet,
)
    requires
        !jpeg_signature(bytes),
        decodes_to(bytes, img1),
        is_extraction(img1, names, a),
        decodes_to(bytes, img2),
        is_extraction(img2, names, b),
    ensures
        a.width == b.width && a.height == b.height,
        a.traces@.len() == b.traces@.len(),
        forall|t: int|
            0 <= t < a.traces@.len() ==> a.traces@[t].base == b.traces@[t].base
                && a.traces@[t].name@ == b.traces@[t].name@
                && a.traces@[t].color@ == b.traces@[t].color@
                && a.traces@[t].mask@ == b.traces@[t].mask@,
{
    lemma_same_pixels_same_traces(img1, img2, names);
    assert forall|t: int| 0 <= t < a.traces@.len() implies a.traces@[t].base == b.traces@[t].base
        && a.traces@[t].name@ == b.traces@[t].name@ && a.traces@[t].color@ == b.traces@[t].color@
        && a.traces@[t].mask@ == b.traces@[t].mask@ by {
        assert(a.traces@[t].base == present_bases(img1, names, 8)[t]);
        assert(b.traces@[t].base == present_bases(img2, names, 8)[t]);
    }
}

proof fn lemma_present_bases_agree(img1: RgbRaster, img2: RgbRaster, names: Seq<String>, r: int)
    requires
        forall|b: BaseColor| base_present(img1, names, b) == base_present(img2, names, b),
    ensures
        present_bases(img1, names, r) == present_bases(img2, names, r),
    decreases r,
{
    if r > 0 {
        lemma_present_bases_agree(img1, img2, names, r - 1);
    }
}

/// Two rasters with the same size and pixels have the same traces.
proof fn lemma_same_pixels_same_traces(img1: RgbRaster, img2: RgbRaster, names: Seq<String>)
    requires
        img1.width == img2.width,
        img1.height == img2.height,
        img1.data@ == img2.data@,
    ensures
        forall|b: BaseColor| #[trigger] base_mask(img1, names, b) == base_mask(img2, names, b),
        present_bases(img1, names, 8) == present_bases(img2, names, 8),
{
    reveal(RgbRaster::npix);
    assert forall|k: int| #[trigger] entry_trace(img1, k) == entry_trace(img2, k) by {
        assert(color_mask(img1, palette()[k]) =~= color_mask(img2, palette()[k]));
    }
    assert forall|b: BaseColor| #[trigger] base_mask(img1, names, b) == base_mask(img2, names, b) by {
        assert forall|i: int| base_pixel_upto(img1, names, b, PALETTE_LEN as int, i)
            == base_pixel_upto(img2, names, b, PALETTE_LEN as int, i) by {
            if base_pixel_upto(img1, names, b, PALETTE_LEN as int, i) {
                let k = choose|k: int|
                    0 <= k < PALETTE_LEN && palette()[k].base == b && entry_selected(names, k)
                        && #[trigger] entry_trace(img1, k)[i];
                assert(entry_trace(img2, k)[i]);
            }
            if base_pixel_upto(img2, names, b, PALETTE_LEN as int, i) {
                let k = choose|k: int|
                    0 <= k < PALETTE_LEN && palette()[k].base == b && entry_selected(names, k)
                        && #[trigger] entry_trace(img2, k)[i];
                assert(entry_trace(img1, k) == entry_trace(img2, k));
                assert(entry_trace(img1, k)[i]);
            }
        }
        assert(base_mask(img1, names, b) =~= base_mask(img2, names, b));
    }
    assert forall|b: BaseColor| base_present(img1, names, b) == base_present(img2, names, b) by {
        assert(base_mask(img1, names, b) == base_mask(img2, names, b));
    }
    lemma_present_bases_agree(img1, img2, names, 8);
}

} // verus!
