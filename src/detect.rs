use vstd::prelude::*;
use crate::palette::{BaseColor, get_color_ranges, palette, PALETTE_LEN};
use crate::raster::{
    RgbRaster, CurveError, color_mask, count_set, count_mask, create_color_mask, decode_image,
    decodes_to, decodable, decoded_rgb8, jpeg_signature,
};

verus! {

/// A base color found in an image, with the number of its pixels.
#[derive(Clone, Debug)]
pub struct DetectedColor {
    pub name: String,
    pub display_name: Option<String>,
    pub color: String,
    pub pixel_count: usize,
    pub base: BaseColor,
}

/// Number of pixels of `img` in palette entry `k`.
#[verifier::opaque]
pub open spec fn entry_count(img: RgbRaster, k: int) -> nat {
    count_set(color_mask(img, palette()[k]))
}

/// A base color is reported only above `max(1, floor(0.0005 * W * H))` pixels.
#[verifier::opaque]
pub open spec fn detection_threshold(npix: int) -> int {
    if npix / 2000 > 1 {
        npix / 2000
    } else {
        1
    }
}

/// Palette entry `k` is reported: it has more pixels than the threshold,
/// and no earlier entry of the same base color did.
#[verifier::opaque]
pub open spec fn emitted(img: RgbRaster, k: int) -> bool {
    &&& entry_count(img, k) > detection_threshold(img.npix())
    &&& forall|j: int|
        0 <= j < k && palette()[j].base == palette()[k].base ==> entry_count(img, j)
            <= detection_threshold(img.npix())
}

/// `d` reports palette entry `k` of `img`.
#[verifier::opaque]
pub open spec fn describes(d: DetectedColor, img: RgbRaster, k: int) -> bool {
    &&& d.base == palette()[k].base
    &&& d.name@ == d.base.spec_name()
    &&& d.color@ == d.base.spec_display()
    &&& d.pixel_count == entry_count(img, k)
    &&& d.display_name matches Some(s) && s@ == d.base.spec_name()
}

/// `d` reports one of the palette entries before `k` that `img` reports.
pub open spec fn reports_before(img: RgbRaster, d: DetectedColor, k: int) -> bool {
    exists|j: int| 0 <= j < k && emitted(img, j) && #[trigger] describes(d, img, j)
}

/// Some element of `out` reports palette entry `k`.
pub open spec fn listed_in(img: RgbRaster, out: Seq<DetectedColor>, k: int) -> bool {
    exists|i: int| 0 <= i < out.len() && #[trigger] describes(out[i], img, k)
}

/// `a` and `b` report palette entries `ka < kb`: of two colors with equal
/// counts, the one from the earlier palette entry comes first.
pub open spec fn in_palette_order(img: RgbRaster, a: DetectedColor, b: DetectedColor) -> bool {
    exists|ka: int, kb: int|
        0 <= ka < kb && emitted(img, ka) && emitted(img, kb) && #[trigger] describes(a, img, ka)
            && #[trigger] describes(b, img, kb)
}

/// `out` is the detection result for `img`: one element per reported palette
/// entry and nothing else, no base color twice, in descending pixel count,
/// equal counts in palette order.
pub open spec fn is_detection(img: RgbRaster, out: Seq<DetectedColor>) -> bool {
    &&& forall|i: int| 0 <= i < out.len() ==> reports_before(img, #[trigger] out[i], PALETTE_LEN as int)
    &&& forall|k: int|
        0 <= k < PALETTE_LEN && emitted(img, k) ==> #[trigger] listed_in(img, out, k)
    &&& forall|i: int, j: int| 0 <= i < j < out.len() ==> out[i].base != out[j].base
    &&& forall|i: int, j: int|
        0 <= i < j < out.len() ==> out[i].pixel_count >= out[j].pixel_count
    &&& forall|i: int, j: int|
        0 <= i < j < out.len() && out[i].pixel_count == out[j].pixel_count ==> in_palette_order(
            img,
            out[i],
            out[j],
        )
}

/// Some element of `out` has base color `b`.
pub open spec fn seen(out: Seq<DetectedColor>, b: BaseColor) -> bool {
    exists|i: int| 0 <= i < out.len() && out[i].base == b
}

/// Some palette entry before `k` of base color `b` has more than `thr` pixels.
pub open spec fn counted(img: RgbRaster, k: int, thr: int, b: BaseColor) -> bool {
    exists|j: int| 0 <= j < k && entry_count(img, j) > thr && #[trigger] palette()[j].base == b
}

fn make_detected(base: BaseColor, count: usize) -> (d: DetectedColor)
    ensures
        d.base == base,
        d.name@ == base.spec_name(),
        d.color@ == base.spec_display(),
        d.pixel_count == count,
        d.display_name matches Some(s) && s@ == base.spec_name(),
{
    DetectedColor {
        name: String::from_str(base.name()),
        display_name: Some(String::from_str(base.name())),
        color: String::from_str(base.display_color()),
        pixel_count: count,
        base,
    }
}

fn has_base(out: &Vec<DetectedColor>, base: BaseColor) -> (b: bool)
    ensures
        b == seen(out@, base),
{
    let mut i: usize = 0;
    while i < out.len()
        invariant
            i <= out@.len(),
            forall|j: int| 0 <= j < i ==> out@[j].base != base,
        decreases out@.len() - i,
    {
        if out[i].base == base {
            return true;
        }
        i += 1;
    }
    false
}

/// Inserts `d` after every element with at least its pixel count.
fn insert_by_count(out: &mut Vec<DetectedColor>, d: DetectedColor) -> (pos: usize)
    requires
        forall|i: int, j: int|
            0 <= i < j < old(out)@.len() ==> old(out)@[i].pixel_count >= old(out)@[j].pixel_count,
    ensures
        pos <= old(out)@.len(),
        final(out)@ == old(out)@.insert(pos as int, d),
        forall|t: int| pos <= t < old(out)@.len() ==> old(out)@[t].pixel_count < d.pixel_count,
        forall|i: int, j: int|
            0 <= i < j < final(out)@.len() ==> final(out)@[i].pixel_count
                >= final(out)@[j].pixel_count,
{
    let mut pos: usize = 0;
    while pos < out.len() && out[pos].pixel_count >= d.pixel_count
        invariant
            pos <= out@.len(),
            forall|j: int| 0 <= j < pos ==> out@[j].pixel_count >= d.pixel_count,
        decreases out@.len() - pos,
    {
        pos += 1;
    }
    let ghost o = out@;
    proof {
        o.insert_ensures(pos as int, d);
        assert forall|t: int| pos <= t < o.len() implies o[t].pixel_count < d.pixel_count by {
            assert(o[pos as int].pixel_count >= o[t].pixel_count || t == pos);
        }
    }
    out.insert(pos, d);
    proof {
        assert forall|i: int, j: int|
            0 <= i < j < out@.len() implies out@[i].pixel_count >= out@[j].pixel_count by {
            if j < pos {
            } else if j == pos {
            } else if i < pos {
                assert(out@[j] == o[j - 1]);
            } else if i == pos {
                assert(out@[j] == o[j - 1]);
                assert(o[pos as int].pixel_count < d.pixel_count);
                assert(o[pos as int].pixel_count >= o[j - 1].pixel_count || j - 1 == pos);
            } else {
                assert(out@[j] == o[j - 1]);
                assert(out@[i] == o[i - 1]);
            }
        }
    }
    pos
}

/// The state of detection after the first `k` palette entries: `out` holds
/// exactly the entries reported so far, sorted, and knows which base colors
/// have passed the threshold.
#[verifier::opaque]
pub open spec fn detection_upto(img: RgbRaster, out: Seq<DetectedColor>, k: int, thr: int) -> bool {
    &&& forall|i: int| 0 <= i < out.len() ==> reports_before(img, #[trigger] out[i], k)
    &&& forall|j: int| 0 <= j < k && emitted(img, j) ==> #[trigger] listed_in(img, out, j)
    &&& forall|i: int, j: int| 0 <= i < j < out.len() ==> out[i].base != out[j].base
    &&& forall|i: int, j: int| 0 <= i < j < out.len() ==> out[i].pixel_count >= out[j].pixel_count
    &&& forall|i: int, j: int|
        0 <= i < j < out.len() && out[i].pixel_count == out[j].pixel_count ==> in_palette_order(
            img,
            out[i],
            out[j],
        )
    &&& forall|b: BaseColor|
        #![trigger seen(out, b)]
        #![trigger counted(img, k, thr, b)]
        seen(out, b) == counted(img, k, thr, b)
}

proof fn lemma_detection_start(img: RgbRaster, thr: int)
    ensures
        detection_upto(img, Seq::empty(), 0, thr),
{
    reveal(detection_upto);
}

proof fn lemma_detection_done(img: RgbRaster, out: Seq<DetectedColor>, thr: int)
    requires
        detection_upto(img, out, PALETTE_LEN as int, thr),
    ensures
        is_detection(img, out),
{
    reveal(detection_upto);
}

proof fn lemma_detection_skip(img: RgbRaster, out: Seq<DetectedColor>, k: int, thr: int)
    requires
        0 <= k,
        thr == detection_threshold(img.npix()),
        detection_upto(img, out, k, thr),
        !(entry_count(img, k) > thr && !seen(out, palette()[k].base)),
    ensures
        detection_upto(img, out, k + 1, thr),
{
    reveal(detection_upto);
    let base = palette()[k].base;
    assert(!emitted(img, k)) by {
        reveal(emitted);
        if entry_count(img, k) > thr {
            assert(seen(out, base));
            assert(counted(img, k, thr, base));
            let j = choose|j: int|
                0 <= j < k && entry_count(img, j) > thr && #[trigger] palette()[j].base == base;
            assert(palette()[j].base == palette()[k].base);
        }
    }
    assert forall|i: int| 0 <= i < out.len() implies reports_before(img, #[trigger] out[i], k + 1) by {
        assert(reports_before(img, out[i], k));
    }
    assert forall|b: BaseColor|
        #![trigger seen(out, b)]
        #![trigger counted(img, k + 1, thr, b)]
        seen(out, b) == counted(img, k + 1, thr, b) by {
        assert(seen(out, b) == counted(img, k, thr, b));
        if counted(img, k + 1, thr, b) {
            let j = choose|j: int|
                0 <= j < k + 1 && entry_count(img, j) > thr && #[trigger] palette()[j].base == b;
            if j < k {
                assert(counted(img, k, thr, b));
            }
        }
    }
}

proof fn lemma_detection_insert(
    img: RgbRaster,
    o: Seq<DetectedColor>,
    out: Seq<DetectedColor>,
    pos: int,
    d: DetectedColor,
    k: int,
    thr: int,
)
    requires
        0 <= k,
        thr == detection_threshold(img.npix()),
        detection_upto(img, o, k, thr),
        entry_count(img, k) > thr,
        !seen(o, palette()[k].base),
        describes(d, img, k),
        0 <= pos <= o.len(),
        out == o.insert(pos, d),
        forall|i: int, j: int| 0 <= i < j < out.len() ==> out[i].pixel_count >= out[j].pixel_count,
        forall|t: int| pos <= t < o.len() ==> o[t].pixel_count < d.pixel_count,
    ensures
        detection_upto(img, out, k + 1, thr),
{
    reveal(detection_upto);
    o.insert_ensures(pos, d);
    let base = palette()[k].base;
    assert(emitted(img, k)) by {
        reveal(emitted);
        assert forall|j: int|
            0 <= j < k && palette()[j].base == palette()[k].base implies entry_count(img, j)
                <= thr by {
            if entry_count(img, j) > thr {
                assert(counted(img, k, thr, base));
            }
        }
    }
    assert(d.base == base) by {
        reveal(describes);
    }
    assert forall|i: int| 0 <= i < out.len() implies reports_before(img, #[trigger] out[i], k + 1) by {
        if i < pos {
            assert(out[i] == o[i]);
            assert(reports_before(img, o[i], k));
        } else if i == pos {
            assert(describes(out[i], img, k));
        } else {
            assert(out[i] == o[i - 1]);
            assert(reports_before(img, o[i - 1], k));
        }
    }
    assert forall|j: int| 0 <= j < k + 1 && emitted(img, j) implies #[trigger] listed_in(img, out, j) by {
        if j == k {
            assert(describes(out[pos], img, j));
        } else {
            assert(listed_in(img, o, j));
            let i = choose|i: int| 0 <= i < o.len() && #[trigger] describes(o[i], img, j);
            if i < pos {
                assert(out[i] == o[i]);
            } else {
                assert(out[i + 1] == o[i]);
            }
        }
    }
    assert forall|i: int, j: int| 0 <= i < j < out.len() implies out[i].base != out[j].base by {
        if i == pos {
            assert(out[j] == o[j - 1]);
            assert(!seen(o, base));
        } else if j == pos {
            assert(out[i] == o[i]);
            assert(!seen(o, base));
        } else if j < pos {
            assert(out[j] == o[j]);
            assert(out[i] == o[i]);
        } else if i < pos {
            assert(out[j] == o[j - 1]);
            assert(out[i] == o[i]);
        } else {
            assert(out[j] == o[j - 1]);
            assert(out[i] == o[i - 1]);
        }
    }
    assert forall|i: int, j: int|
        0 <= i < j < out.len() && out[i].pixel_count == out[j].pixel_count implies in_palette_order(
            img,
            out[i],
            out[j],
        ) by {
        if i == pos {
            assert(out[j] == o[j - 1]);
        } else if j == pos {
            assert(out[i] == o[i]);
            assert(reports_before(img, o[i], k));
            let ka = choose|ka: int| 0 <= ka < k && emitted(img, ka) && #[trigger] describes(o[i], img, ka);
            assert(describes(out[j], img, k));
            assert(0 <= ka < k && emitted(img, ka) && emitted(img, k) && describes(out[i], img, ka)
                && describes(out[j], img, k));
        } else if j < pos {
            assert(out[j] == o[j]);
            assert(out[i] == o[i]);
        } else if i < pos {
            assert(out[j] == o[j - 1]);
            assert(out[i] == o[i]);
        } else {
            assert(out[j] == o[j - 1]);
            assert(out[i] == o[i - 1]);
        }
    }
    assert forall|b: BaseColor|
        #![trigger seen(out, b)]
        #![trigger counted(img, k + 1, thr, b)]
        seen(out, b) == counted(img, k + 1, thr, b) by {
        assert(seen(o, b) == counted(img, k, thr, b));
        if seen(out, b) {
            let i = choose|i: int| 0 <= i < out.len() && out[i].base == b;
            if i == pos {
                assert(palette()[k].base == b);
            } else if i < pos {
                assert(out[i] == o[i]);
            } else {
                assert(out[i] == o[i - 1]);
            }
        }
        if counted(img, k + 1, thr, b) {
            let j = choose|j: int|
                0 <= j < k + 1 && entry_count(img, j) > thr && #[trigger] palette()[j].base == b;
            if j == k {
                assert(out[pos].base == b);
            } else {
                assert(counted(img, k, thr, b));
                let i = choose|i: int| 0 <= i < o.len() && o[i].base == b;
                if i < pos {
                    assert(out[i] == o[i]);
                } else {
                    assert(out[i + 1] == o[i]);
                }
            }
        }
    }
}

/// Reports the base colors present in `img`: each palette entry in order is
/// counted, reported when above the threshold and its base color is not yet
/// reported, and the result is sorted by pixel count, most prominent first.
pub fn detect_colors_in(img: &RgbRaster) -> (out: Vec<DetectedColor>)
    requires
        img.wf(),
    ensures
        is_detection(*img, out@),
{
    let ranges = get_color_ranges();
    let n = img.data.len() / 3;
    proof {
        reveal(RgbRaster::npix);
    }
    let thr: usize = if n / 2000 > 1 {
        n / 2000
    } else {
        1
    };
    let mut out: Vec<DetectedColor> = Vec::new();
    proof {
        reveal(detection_threshold);
        lemma_detection_start(*img, thr as int);
    }
    let mut k: usize = 0;
    while k < PALETTE_LEN
        invariant
            img.wf(),
            ranges@ == palette(),
            ranges@.len() == PALETTE_LEN,
            n == img.npix(),
            thr == detection_threshold(n as int),
            k <= PALETTE_LEN,
            detection_upto(*img, out@, k as int, thr as int),
        decreases PALETTE_LEN - k,
    {
        let mask = create_color_mask(img, &ranges[k]);
        let count = count_mask(&mask);
        let base = ranges[k].base;
        let already = has_base(&out, base);
        assert(count == entry_count(*img, k as int)) by {
            reveal(entry_count);
        }
        if count > thr && !already {
            let ghost o = out@;
            let d = make_detected(base, count);
            assert(describes(d, *img, k as int)) by {
                reveal(describes);
            }
            proof {
                reveal(detection_upto);
            }
            let pos = insert_by_count(&mut out, d);
            proof {
                lemma_detection_insert(*img, o, out@, pos as int, d, k as int, thr as int);
            }
        } else {
            proof {
                lemma_detection_skip(*img, out@, k as int, thr as int);
            }
        }
        k += 1;
    }
    proof {
        lemma_detection_done(*img, out@, thr as int);
    }
    out
}

/// Decodes an image and reports the base colors present in it.
pub fn detect_colors(image_data: &[u8]) -> (r: Result<Vec<DetectedColor>, CurveError>)
    ensures
        image_data@.len() == 0 ==> r matches Err(CurveError::EmptyInput),
        image_data@.len() > 0 && !jpeg_signature(image_data@) ==> (r is Ok <==> decodable(
            image_data@,
        )),
        image_data@.len() > 0 && !jpeg_signature(image_data@) ==> match decoded_rgb8(image_data@) {
            Err(m) => r matches Err(CurveError::InvalidImage(s)) && s@ == m,
            Ok(_) => !decodable(image_data@) ==> r matches Err(CurveError::InvalidImage(_)),
        },
        r matches Err(e) ==> (e matches CurveError::EmptyInput && image_data@.len() == 0) || (
        e matches CurveError::InvalidImage(_) && image_data@.len() > 0),
        r matches Ok(out) ==> exists|img: RgbRaster|
            decodes_to(image_data@, img) && #[trigger] is_detection(img, out@),
{
    match decode_image(image_data) {
        Ok(img) => {
            let out = detect_colors_in(&img);
            assert(decodes_to(image_data@, img));
            assert(is_detection(img, out@));
            let r: Result<Vec<DetectedColor>, CurveError> = Ok(out);
            assert(r matches Ok(o) && is_detection(img, o@));
            r
        },
        Err(e) => Err(e),
    }
}

/// Distinct base colors have distinct names.
pub proof fn lemma_names_distinct(a: BaseColor, b: BaseColor)
    requires
        a != b,
    ensures
        a.spec_name() != b.spec_name(),
{
    assert(a.spec_name().len() != b.spec_name().len() || a.spec_name()[0] != b.spec_name()[0]
        || a.spec_name()[1] != b.spec_name()[1]);
}

/// No two reported colors share a name.
pub proof fn lemma_detection_names_unique(img: RgbRaster, out: Seq<DetectedColor>, i: int, j: int)
    requires
        is_detection(img, out),
        0 <= i < j < out.len(),
    ensures
        out[i].name@ != out[j].name@,
{
    reveal(describes);
    assert(reports_before(img, out[i], PALETTE_LEN as int));
    assert(reports_before(img, out[j], PALETTE_LEN as int));
    lemma_names_distinct(out[i].base, out[j].base);
}

/// Every reported color has more pixels than `max(1, floor(0.0005 * W * H))`.
pub proof fn lemma_detection_above_threshold(img: RgbRaster, out: Seq<DetectedColor>, i: int)
    requires
        is_detection(img, out),
        0 <= i < out.len(),
    ensures
        out[i].pixel_count > img.npix() / 2000,
        out[i].pixel_count > 1,
{
    reveal(describes);
    reveal(emitted);
    reveal(detection_threshold);
    assert(reports_before(img, out[i], PALETTE_LEN as int));
}

} // verus!
