use vstd::prelude::*;
use crate::palette::BaseColor;
use crate::raster::CurveError;

verus! {

pub open spec fn clamp(v: int, lo: int, hi: int) -> int {
    if v < lo {
        lo
    } else if v > hi {
        hi
    } else {
        v
    }
}

/// Smoothing window for a curve of `n` points: red `clamp(n/10, 5, 25)`,
/// blue `clamp(n/12, 5, 20)`, any other color `clamp(n/15, 3, 15)`.
pub open spec fn spec_smoothing_window(b: BaseColor, n: int) -> int {
    match b {
        BaseColor::Red => clamp(n / 10, 5, 25),
        BaseColor::Blue => clamp(n / 12, 5, 20),
        _ => clamp(n / 15, 3, 15),
    }
}

/// The smoothing window of a curve of base color `b` with `n` points.
pub fn smoothing_window(b: BaseColor, n: usize) -> (w: usize)
    ensures
        w == spec_smoothing_window(b, n as int),
        3 <= w <= 25,
{
    let (v, lo, hi): (usize, usize, usize) = match b {
        BaseColor::Red => (n / 10, 5, 25),
        BaseColor::Blue => (n / 12, 5, 20),
        _ => (n / 15, 3, 15),
    };
    if v < lo {
        lo
    } else if v > hi {
        hi
    } else {
        v
    }
}

/// Smoothing is skipped when the curve has no more points than the window.
pub fn should_smooth(n: usize, window: usize) -> (s: bool)
    ensures
        s == (n > window),
{
    n > window
}

/// The half-open window `[max(0, i - w/2), min(n, i + w/2 + 1))` averaged
/// around point `i` of `n`.
pub fn window_bounds(i: usize, n: usize, w: usize) -> (r: (usize, usize))
    requires
        i < n,
    ensures
        r.0 == (if i >= w / 2 { i - w / 2 } else { 0 }),
        r.1 as int == (if i + w / 2 + 1 < n { i + w / 2 + 1 } else { n as int }),
        r.0 <= i < r.1 <= n,
{
    let half = w / 2;
    let start = if i >= half {
        i - half
    } else {
        0
    };
    let end = if half < n - i - 1 {
        i + half + 1
    } else {
        n
    };
    (start, end)
}

} // verus!

verus! {

/// One bin: a bin key and the indices, ascending, of the points that fall in it.
#[derive(Clone, Debug)]
pub struct Bin {
    pub key: i64,
    pub members: Vec<usize>,
}

/// `b` is the bin of key `b.key` over `keys`: exactly the indices with that
/// key, in ascending order.
pub open spec fn is_bin_of(keys: Seq<i64>, b: Bin) -> bool {
    &&& forall|t: int| 0 <= t < b.members@.len() ==> (#[trigger] b.members@[t]) < keys.len()
    &&& forall|t: int| 0 <= t < b.members@.len() ==> keys[#[trigger] b.members@[t] as int] == b.key
    &&& forall|s: int, t: int| 0 <= s < t < b.members@.len() ==> b.members@[s] < b.members@[t]
    &&& forall|c: int| 0 <= c < keys.len() && keys[c] == b.key ==> b.members@.contains(c as usize)
}

/// Some index below `n` has key `k`.
pub open spec fn key_used(keys: Seq<i64>, n: int, k: i64) -> bool {
    exists|c: int| 0 <= c < n && keys[c] == k
}

/// Some bin of `bins` has key `k`.
pub open spec fn has_bin(bins: Seq<Bin>, k: i64) -> bool {
    exists|g: int| 0 <= g < bins.len() && #[trigger] bins[g].key == k
}

/// Collects the indices of the points with key `k`, ascending.
fn members_of(keys: &Vec<i64>, k: i64) -> (b: Bin)
    ensures
        is_bin_of(keys@, b),
        b.key == k,
{
    let mut members: Vec<usize> = Vec::new();
    let mut c: usize = 0;
    while c < keys.len()
        invariant
            c <= keys@.len(),
            forall|t: int| 0 <= t < members@.len() ==> (#[trigger] members@[t]) < c,
            forall|t: int| 0 <= t < members@.len() ==> keys@[#[trigger] members@[t] as int] == k,
            forall|s: int, t: int| 0 <= s < t < members@.len() ==> members@[s] < members@[t],
            forall|d: int| 0 <= d < c && keys@[d] == k ==> members@.contains(d as usize),
        decreases keys@.len() - c,
    {
        if keys[c] == k {
            let ghost before = members@;
            members.push(c);
            proof {
                assert(members@[before.len() as int] == c);
                assert forall|d: int| 0 <= d < c + 1 && keys@[d] == k implies members@.contains(d as usize) by {
                    if d < c {
                        let t = choose|t: int| 0 <= t < before.len() && before[t] == d as usize;
                        assert(members@[t] == d as usize);
                    }
                }
            }
        }
        c += 1;
    }
    Bin { key: k, members }
}

/// Groups points by their bin key: one bin per distinct key, in ascending key
/// order, each holding the indices of its points in ascending order.
pub fn group_by_key(keys: &Vec<i64>) -> (bins: Vec<Bin>)
    ensures
        forall|g: int| 0 <= g < bins@.len() ==> is_bin_of(keys@, #[trigger] bins@[g]),
        forall|g: int, h: int| 0 <= g < h < bins@.len() ==> bins@[g].key < bins@[h].key,
        forall|c: int| 0 <= c < keys@.len() ==> has_bin(bins@, #[trigger] keys@[c]),
        forall|g: int| 0 <= g < bins@.len() ==> key_used(keys@, keys@.len() as int, #[trigger] bins@[g].key),
{
    let mut ks: Vec<i64> = Vec::new();
    let mut c: usize = 0;
    while c < keys.len()
        invariant
            c <= keys@.len(),
            forall|g: int, h: int| 0 <= g < h < ks@.len() ==> ks@[g] < ks@[h],
            forall|g: int| 0 <= g < ks@.len() ==> key_used(keys@, c as int, #[trigger] ks@[g]),
            forall|d: int| 0 <= d < c ==> ks@.contains(#[trigger] keys@[d]),
        decreases keys@.len() - c,
    {
        let k = keys[c];
        let mut pos: usize = 0;
        while pos < ks.len() && ks[pos] < k
            invariant
                pos <= ks@.len(),
                forall|g: int| 0 <= g < pos ==> ks@[g] < k,
            decreases ks@.len() - pos,
        {
            pos += 1;
        }
        let ghost old_ks = ks@;
        if pos < ks.len() && ks[pos] == k {
            proof {
                assert forall|g: int| 0 <= g < ks@.len() implies key_used(keys@, c + 1, #[trigger] ks@[g]) by {
                    let d = choose|d: int| 0 <= d < c && keys@[d] == ks@[g];
                }
                assert forall|d: int| 0 <= d < c + 1 implies ks@.contains(#[trigger] keys@[d]) by {
                    if d == c {
                        assert(ks@[pos as int] == k);
                    }
                }
            }
        } else {
            ks.insert(pos, k);
            proof {
                old_ks.insert_ensures(pos as int, k);
                assert forall|g: int, h: int| 0 <= g < h < ks@.len() implies ks@[g] < ks@[h] by {
                    if h < pos {
                    } else if h == pos {
                    } else if g < pos {
                        assert(ks@[h] == old_ks[h - 1]);
                        if pos < old_ks.len() {
                            assert(old_ks[pos as int] > k);
                            assert(old_ks[pos as int] <= old_ks[h - 1]);
                        }
                    } else if g == pos {
                        assert(ks@[h] == old_ks[h - 1]);
                        assert(old_ks[pos as int] > k);
                        assert(old_ks[pos as int] <= old_ks[h - 1]);
                    } else {
                        assert(ks@[h] == old_ks[h - 1]);
                        assert(ks@[g] == old_ks[g - 1]);
                    }
                }
                assert forall|g: int| 0 <= g < ks@.len() implies key_used(keys@, c + 1, #[trigger] ks@[g]) by {
                    if g < pos {
                        assert(ks@[g] == old_ks[g]);
                        assert(key_used(keys@, c as int, old_ks[g]));
                        let d = choose|d: int| 0 <= d < c && keys@[d] == old_ks[g];
                    } else if g == pos {
                        assert(keys@[c as int] == ks@[g]);
                    } else {
                        assert(ks@[g] == old_ks[g - 1]);
                        assert(key_used(keys@, c as int, old_ks[g - 1]));
                        let d = choose|d: int| 0 <= d < c && keys@[d] == old_ks[g - 1];
                    }
                }
                assert forall|d: int| 0 <= d < c + 1 implies ks@.contains(#[trigger] keys@[d]) by {
                    if d == c {
                        assert(ks@[pos as int] == k);
                    } else {
                        assert(old_ks.contains(keys@[d]));
                        let g = choose|g: int| 0 <= g < old_ks.len() && old_ks[g] == keys@[d];
                        if g < pos {
                            assert(ks@[g] == keys@[d]);
                        } else {
                            assert(ks@[g + 1] == keys@[d]);
                        }
                    }
                }
            }
        }
        c += 1;
    }
    let mut bins: Vec<Bin> = Vec::new();
    let mut g: usize = 0;
    while g < ks.len()
        invariant
            g <= ks@.len(),
            bins@.len() == g,
            forall|h: int, i: int| 0 <= h < i < ks@.len() ==> ks@[h] < ks@[i],
            forall|h: int| 0 <= h < ks@.len() ==> key_used(keys@, keys@.len() as int, #[trigger] ks@[h]),
            forall|h: int| 0 <= h < g ==> is_bin_of(keys@, #[trigger] bins@[h]) && bins@[h].key == ks@[h],
        decreases ks@.len() - g,
    {
        let b = members_of(keys, ks[g]);
        bins.push(b);
        proof {
            assert(bins@[g as int] == b);
        }
        g += 1;
    }
    proof {
        assert forall|d: int| 0 <= d < keys@.len() implies has_bin(bins@, #[trigger] keys@[d]) by {
            assert(ks@.contains(keys@[d]));
            let h = choose|h: int| 0 <= h < ks@.len() && ks@[h] == keys@[d];
            assert(bins@[h].key == keys@[d]);
        }
        assert forall|h: int| 0 <= h < bins@.len() implies key_used(keys@, keys@.len() as int, #[trigger] bins@[h].key) by {
            assert(bins@[h].key == ks@[h]);
        }
    }
    bins
}

/// How an axis maps pixel positions to values.
#[derive(Clone, Copy, PartialEq, Eq, Structural, Debug)]
pub enum ScaleType {
    Linear,
    Log,
}

/// Reads an axis scale type: exactly `linear` or `log`; anything else is a
/// configuration error.
pub fn parse_scale_type(s: &str) -> (r: Result<ScaleType, CurveError>)
    ensures
        s@ == seq!['l', 'i', 'n', 'e', 'a', 'r'] ==> r matches Ok(ScaleType::Linear),
        s@ == seq!['l', 'o', 'g'] ==> r matches Ok(ScaleType::Log),
        s@ != seq!['l', 'i', 'n', 'e', 'a', 'r'] && s@ != seq!['l', 'o', 'g'] ==> r matches Err(
            CurveError::InvalidConfig(_),
        ),
{
    let given = String::from_str(s);
    proof {
        reveal_strlit("linear");
        reveal_strlit("log");
        assert("linear"@ =~= seq!['l', 'i', 'n', 'e', 'a', 'r']);
        assert("log"@ =~= seq!['l', 'o', 'g']);
    }
    if given == String::from_str("linear") {
        Ok(ScaleType::Linear)
    } else if given == String::from_str("log") {
        Ok(ScaleType::Log)
    } else {
        Err(CurveError::InvalidConfig(String::from_str("unknown scale type")))
    }
}

} // verus!
