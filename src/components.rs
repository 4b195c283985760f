use vstd::prelude::*;
use vstd::arithmetic::div_mod::{lemma_fundamental_div_mod, lemma_fundamental_div_mod_converse};
use vstd::set_lib::{set_int_range, lemma_int_range, lemma_len_subset};

verus! {

/// Pixels `a` and `b` of a `w`-wide row-major grid are distinct 8-neighbours.
pub open spec fn adjacent(w: int, a: int, b: int) -> bool {
    a != b && -1 <= a % w - b % w <= 1 && -1 <= a / w - b / w <= 1
}

/// Stepping from a member of `d` to an adjacent set pixel of `m` stays in `d`.
#[verifier::opaque]
pub open spec fn closed(m: Seq<bool>, w: int, d: Set<int>) -> bool {
    forall|a: int, b: int|
        #![trigger d.contains(a), adjacent(w, a, b)]
        d.contains(a) && 0 <= b < m.len() && m[b] && adjacent(w, a, b) ==> d.contains(b)
}

/// Every closed set that holds `s` also holds `k`.
pub open spec fn reaches(m: Seq<bool>, w: int, s: int, k: int) -> bool {
    forall|d: Set<int>| #[trigger] closed(m, w, d) && d.contains(s) ==> d.contains(k)
}

/// `c` is the 8-connected component of pixel `i` in `m`: the least closed
/// set that holds `i`.
#[verifier::opaque]
pub open spec fn is_component(m: Seq<bool>, w: int, c: Set<int>, i: int) -> bool {
    &&& c.contains(i)
    &&& closed(m, w, c)
    &&& forall|d: Set<int>| #[trigger] closed(m, w, d) && d.contains(i) ==> c.subset_of(d)
}

/// `[x0, x1] x [y0, y1]` is the bounding box of `c`: it holds every member,
/// and each of its four sides is touched by a member.
pub open spec fn tight_box(w: int, c: Set<int>, x0: int, x1: int, y0: int, y1: int) -> bool {
    &&& forall|j: int| #[trigger] c.contains(j) ==> x0 <= j % w <= x1 && y0 <= j / w <= y1
    &&& exists|j: int| #[trigger] c.contains(j) && j % w == x0
    &&& exists|j: int| #[trigger] c.contains(j) && j % w == x1
    &&& exists|j: int| #[trigger] c.contains(j) && j / w == y0
    &&& exists|j: int| #[trigger] c.contains(j) && j / w == y1
}

/// A box `bw` wide and `bh` tall has `0.3 < bw / bh < 10`.
pub open spec fn aspect_ok(bw: int, bh: int) -> bool {
    3 * bh < 10 * bw && bw < 10 * bh
}

/// The bounding box of `c` passes the aspect gate.
pub open spec fn box_ok(w: int, c: Set<int>) -> bool {
    exists|x0: int, x1: int, y0: int, y1: int|
        #[trigger] tight_box(w, c, x0, x1, y0, y1) && aspect_ok(x1 - x0 + 1, y1 - y0 + 1)
}

/// A component passes the size gate and the aspect gate.
pub open spec fn component_kept(w: int, min_size: int, c: Set<int>) -> bool {
    c.finite() && c.len() >= min_size && box_ok(w, c)
}

/// Pixel `i` is set and its component passes both gates.
pub open spec fn kept(m: Seq<bool>, w: int, min_size: int, i: int) -> bool {
    m[i] && exists|c: Set<int>| #[trigger] is_component(m, w, c, i) && component_kept(w, min_size, c)
}

/// The set pixels of a visited map.
pub open spec fn marked(v: Seq<bool>) -> Set<int> {
    Set::new(|k: int| 0 <= k < v.len() && v[k])
}

/// A pixel has at most one component.
pub proof fn lemma_component_unique(m: Seq<bool>, w: int, c1: Set<int>, c2: Set<int>, i: int)
    requires
        is_component(m, w, c1, i),
        is_component(m, w, c2, i),
    ensures
        c1 == c2,
{
    reveal(is_component);
    assert(closed(m, w, c2) && c2.contains(i));
    assert(closed(m, w, c1) && c1.contains(i));
    assert(c1 =~= c2);
}

/// A set has at most one bounding box.
pub proof fn lemma_box_unique(
    w: int,
    c: Set<int>,
    x0: int, x1: int, y0: int, y1: int,
    a0: int, a1: int, b0: int, b1: int,
)
    requires
        tight_box(w, c, x0, x1, y0, y1),
        tight_box(w, c, a0, a1, b0, b1),
    ensures
        x0 == a0 && x1 == a1 && y0 == b0 && y1 == b1,
{
}

/// Reaching is symmetric among set pixels.
pub proof fn lemma_reaches_symmetric(m: Seq<bool>, w: int, s: int, k: int)
    requires
        0 <= s < m.len(),
        m[s],
        reaches(m, w, s, k),
    ensures
        reaches(m, w, k, s),
{
    reveal(closed);
    assert forall|d: Set<int>| #[trigger] closed(m, w, d) && d.contains(k) implies d.contains(s) by {
        if !d.contains(s) {
            let e = Set::new(|x: int| 0 <= x < m.len() && m[x] && !d.contains(x));
            assert forall|a: int, b: int|
                #![trigger e.contains(a), adjacent(w, a, b)]
                e.contains(a) && 0 <= b < m.len() && m[b] && adjacent(w, a, b) implies e.contains(b) by {
                if d.contains(b) {
                    assert(adjacent(w, b, a));
                }
            }
            assert(closed(m, w, e));
            assert(e.contains(s));
        }
    }
}

/// Every member of a component has that same component.
pub proof fn lemma_component_member(m: Seq<bool>, w: int, c: Set<int>, s: int, k: int)
    requires
        0 <= s < m.len(),
        m[s],
        is_component(m, w, c, s),
        c.contains(k),
    ensures
        is_component(m, w, c, k),
{
    reveal(is_component);
    assert(reaches(m, w, s, k));
    lemma_reaches_symmetric(m, w, s, k);
    assert forall|d: Set<int>| #[trigger] closed(m, w, d) && d.contains(k) implies c.subset_of(d) by {
        assert(d.contains(s));
    }
}

fn falses(n: usize) -> (v: Vec<bool>)
    ensures
        v@.len() == n,
        forall|i: int| 0 <= i < n ==> !v@[i],
{
    let mut v: Vec<bool> = Vec::with_capacity(n);
    let mut i: usize = 0;
    while i < n
        invariant
            i <= n,
            v@.len() == i,
            forall|j: int| 0 <= j < i ==> !v@[j],
        decreases n - i,
    {
        v.push(false);
        i += 1;
    }
    v
}

/// Pushes the neighbour at offset `(dx - 1, dy - 1)` of pixel `c` (at column
/// `cx`, row `cy`) when it lies inside the grid.
fn push_if_inside(
    st: &mut Vec<usize>,
    c: usize,
    cx: usize,
    cy: usize,
    dx: usize,
    dy: usize,
    w: usize,
    h: usize,
    Ghost(base): Ghost<int>,
)
    requires
        w >= 1,
        c < w * h,
        w * h <= usize::MAX,
        cx == c % w,
        cy == c / w,
        dx <= 2,
        dy <= 2,
        !(dx == 1 && dy == 1),
        0 <= base <= old(st)@.len(),
        forall|t: int|
            base <= t < old(st)@.len() ==> old(st)@[t] < w * h && adjacent(
                w as int,
                c as int,
                old(st)@[t] as int,
            ),
    ensures
        final(st)@.len() >= old(st)@.len(),
        final(st)@.len() <= old(st)@.len() + 1,
        forall|t: int| 0 <= t < old(st)@.len() ==> final(st)@[t] == old(st)@[t],
        forall|t: int|
            base <= t < final(st)@.len() ==> final(st)@[t] < w * h && adjacent(
                w as int,
                c as int,
                final(st)@[t] as int,
            ),
        forall|x: usize| old(st)@.contains(x) ==> final(st)@.contains(x),
        forall|b: int|
            #![trigger b % (w as int), b / (w as int)]
            0 <= b < w * h && b % (w as int) == cx + dx - 1 && b / (w as int) == cy + dy - 1
                ==> final(st)@.contains(b as usize),
{
    proof {
        lemma_fundamental_div_mod(c as int, w as int);
    }
    let ghost old_st = st@;
    proof {
        assert(cy < h) by (nonlinear_arith)
            requires c < w * h, c == w * cy + cx, 0 <= cx, w >= 1;
    }
    let x_ok = if dx == 0 {
        cx >= 1
    } else if dx == 1 {
        true
    } else {
        cx + 1 < w
    };
    let y_ok = if dy == 0 {
        cy >= 1
    } else if dy == 1 {
        true
    } else {
        cy + 1 < h
    };
    if x_ok && y_ok {
        let nx = if dx == 0 {
            cx - 1
        } else if dx == 1 {
            cx
        } else {
            cx + 1
        };
        let ny = if dy == 0 {
            cy - 1
        } else if dy == 1 {
            cy
        } else {
            cy + 1
        };
        proof {
            assert(ny * w + nx < w * h) by (nonlinear_arith)
                requires ny < h, nx < w, w >= 1;
            assert(ny * w >= 0) by (nonlinear_arith)
                requires ny >= 0, w >= 1;
        }
        let j = ny * w + nx;
        proof {
            lemma_fundamental_div_mod_converse(j as int, w as int, ny as int, nx as int);
            assert forall|b: int|
                #![trigger b % (w as int), b / (w as int)]
                0 <= b < w * h && b % (w as int) == nx && b / (w as int) == ny implies b == j by {
                lemma_fundamental_div_mod(b, w as int);
                assert(w * ny == ny * w) by (nonlinear_arith);
            }
        }
        st.push(j);
        proof {
            assert(st@[old_st.len() as int] == j);
            assert forall|x: usize| old_st.contains(x) implies st@.contains(x) by {
                let t = choose|t: int| 0 <= t < old_st.len() && old_st[t] == x;
                assert(st@[t] == x);
            }
        }
    } else {
        proof {
            assert forall|b: int|
                #![trigger b % (w as int), b / (w as int)]
                0 <= b < w * h && b % (w as int) == cx + dx - 1 && b / (w as int) == cy + dy - 1
                implies false by {
                lemma_fundamental_div_mod(b, w as int);
                assert(b / (w as int) < h) by (nonlinear_arith)
                    requires b < w * h, b == w * (b / (w as int)) + b % (w as int), 0 <= b % (w as int), w >= 1;
            }
        }
    }
}

/// Pushes every 8-neighbour of pixel `c` that lies inside the grid.
fn push_neighbors(st: &mut Vec<usize>, c: usize, w: usize, h: usize)
    requires
        w >= 1,
        c < w * h,
        w * h <= usize::MAX,
    ensures
        final(st)@.len() >= old(st)@.len(),
        final(st)@.len() <= old(st)@.len() + 8,
        forall|t: int| 0 <= t < old(st)@.len() ==> final(st)@[t] == old(st)@[t],
        forall|t: int|
            old(st)@.len() <= t < final(st)@.len() ==> final(st)@[t] < w * h && adjacent(
                w as int,
                c as int,
                final(st)@[t] as int,
            ),
        forall|b: int|
            0 <= b < w * h && adjacent(w as int, c as int, b) ==> final(st)@.contains(b as usize),
{
    let cx = c % w;
    let cy = c / w;
    let ghost s0 = st@;
    let ghost base = s0.len() as int;
    push_if_inside(st, c, cx, cy, 0, 0, w, h, Ghost(base));
    push_if_inside(st, c, cx, cy, 1, 0, w, h, Ghost(base));
    push_if_inside(st, c, cx, cy, 2, 0, w, h, Ghost(base));
    push_if_inside(st, c, cx, cy, 0, 1, w, h, Ghost(base));
    push_if_inside(st, c, cx, cy, 2, 1, w, h, Ghost(base));
    push_if_inside(st, c, cx, cy, 0, 2, w, h, Ghost(base));
    push_if_inside(st, c, cx, cy, 1, 2, w, h, Ghost(base));
    push_if_inside(st, c, cx, cy, 2, 2, w, h, Ghost(base));
    proof {
        assert forall|b: int|
            0 <= b < w * h && adjacent(w as int, c as int, b) implies st@.contains(b as usize) by {
            lemma_fundamental_div_mod(b, w as int);
            lemma_fundamental_div_mod(c as int, w as int);
        }
    }
}

/// The pixels set in `v1` but not in `v0`.
pub open spec fn newly(v0: Seq<bool>, v1: Seq<bool>) -> Set<int> {
    Set::new(|k: int| 0 <= k < v1.len() && v1[k] && !(0 <= k < v0.len() && v0[k]))
}

proof fn lemma_reaches_step(m: Seq<bool>, w: int, s: int, a: int, b: int)
    requires
        reaches(m, w, s, a),
        0 <= b < m.len(),
        m[b],
        adjacent(w, a, b),
    ensures
        reaches(m, w, s, b),
{
    reveal(closed);
    assert forall|d: Set<int>| #[trigger] closed(m, w, d) && d.contains(s) implies d.contains(b) by {
        assert(d.contains(a));
    }
}

proof fn lemma_bounded_set(d: Set<int>, n: int)
    requires
        n >= 0,
        forall|k: int| d.contains(k) ==> 0 <= k < n,
    ensures
        d.finite(),
        d.len() <= n,
{
    lemma_int_range(0, n);
    lemma_len_subset(d, set_int_range(0, n));
}

/// Visits the whole 8-connected component of the unvisited set pixel `s`
/// with an explicit stack, and returns its pixels.
fn explore(mask: &[bool], w: usize, h: usize, visited: &mut Vec<bool>, s: usize) -> (cv: Vec<usize>)
    requires
        w >= 1,
        mask@.len() == w * h,
        old(visited)@.len() == mask@.len(),
        s < mask@.len(),
        mask@[s as int],
        !old(visited)@[s as int],
        forall|k: int| 0 <= k < mask@.len() && old(visited)@[k] ==> mask@[k],
        closed(mask@, w as int, marked(old(visited)@)),
    ensures
        final(visited)@.len() == mask@.len(),
        forall|k: int| 0 <= k < mask@.len() && final(visited)@[k] ==> mask@[k],
        forall|k: int| 0 <= k < mask@.len() && old(visited)@[k] ==> final(visited)@[k],
        closed(mask@, w as int, marked(final(visited)@)),
        is_component(mask@, w as int, newly(old(visited)@, final(visited)@), s as int),
        newly(old(visited)@, final(visited)@).contains(s as int),
        cv@.len() >= 1,
        newly(old(visited)@, final(visited)@).finite(),
        newly(old(visited)@, final(visited)@).len() == cv@.len(),
        forall|t: int|
            0 <= t < cv@.len() ==> newly(old(visited)@, final(visited)@).contains(cv@[t] as int),
        forall|k: int|
            newly(old(visited)@, final(visited)@).contains(k) ==> exists|t: int|
                0 <= t < cv@.len() && cv@[t] as int == k,
{
    reveal(closed);
    reveal(is_component);
    let ghost v0 = visited@;
    let ghost m = mask@;
    let ghost wi = w as int;
    let n = mask.len();
    visited[s] = true;
    let mut cv: Vec<usize> = Vec::new();
    cv.push(s);
    proof {
        assert(newly(v0, visited@) =~= Set::empty().insert(s as int));
        assert(reaches(m, wi, s as int, s as int));
        assert(cv@[0] == s);
    }
    let mut st: Vec<usize> = Vec::new();
    push_neighbors(&mut st, s, w, h);
    proof {
        assert forall|t: int| 0 <= t < st@.len() && m[st@[t] as int] implies reaches(
            m,
            wi,
            s as int,
            st@[t] as int,
        ) by {
            lemma_reaches_step(m, wi, s as int, s as int, st@[t] as int);
        }
    }
    while st.len() > 0
        invariant
            w >= 1,
            wi == w,
            m == mask@,
            n == m.len(),
            n == w * h,
            visited@.len() == n,
            s < n,
            m[s as int],
            !v0[s as int],
            v0.len() == n,
            forall|k: int| 0 <= k < n && v0[k] ==> m[k],
            closed(m, wi, marked(v0)),
            forall|k: int| 0 <= k < n && v0[k] ==> visited@[k],
            newly(v0, visited@).contains(s as int),
            cv@.len() >= 1,
            forall|k: int|
                #[trigger] newly(v0, visited@).contains(k) ==> m[k] && reaches(m, wi, s as int, k),
            newly(v0, visited@).finite(),
            newly(v0, visited@).len() == cv@.len(),
            forall|t: int| 0 <= t < cv@.len() ==> newly(v0, visited@).contains(cv@[t] as int),
            forall|k: int|
                newly(v0, visited@).contains(k) ==> exists|t: int|
                    0 <= t < cv@.len() && cv@[t] as int == k,
            forall|t: int|
                0 <= t < st@.len() ==> st@[t] < n && (m[st@[t] as int] ==> reaches(
                    m,
                    wi,
                    s as int,
                    st@[t] as int,
                )),
            forall|a: int, b: int|
                #![trigger newly(v0, visited@).contains(a), adjacent(wi, a, b)]
                newly(v0, visited@).contains(a) && 0 <= b < n && m[b] && adjacent(wi, a, b)
                    ==> visited@[b] || st@.contains(b as usize),
        decreases 9 * (n - cv@.len()) + st@.len(),
    {
        proof {
            lemma_bounded_set(newly(v0, visited@), n as int);
        }
        let ghost st_before = st@;
        let ghost vis_before = visited@;
        let ghost gc_before = newly(v0, visited@);
        let c = st.pop().unwrap();
        assert(c == st_before.last());
        assert forall|x: usize| st_before.contains(x) && x != c implies st@.contains(x) by {
            let t = choose|t: int| 0 <= t < st_before.len() && st_before[t] == x;
            assert(t < st_before.len() - 1);
            assert(st@[t] == x);
        }
        if !visited[c] && mask[c] {
            visited[c] = true;
            proof {
                assert(newly(v0, visited@) =~= gc_before.insert(c as int));
                assert(!gc_before.contains(c as int));
                assert(st_before[st_before.len() - 1] == c);
                assert(reaches(m, wi, s as int, c as int));
                lemma_bounded_set(newly(v0, visited@), n as int);
            }
            let ghost cv_before = cv@;
            cv.push(c);
            proof {
                assert forall|k: int| newly(v0, visited@).contains(k) implies exists|t: int|
                    0 <= t < cv@.len() && cv@[t] as int == k by {
                    if k == c {
                        assert(cv@[cv_before.len() as int] == c);
                    } else {
                        let t = choose|t: int| 0 <= t < cv_before.len() && cv_before[t] as int == k;
                        assert(cv@[t] as int == k);
                    }
                }
            }
            let ghost st_mid = st@;
            push_neighbors(&mut st, c, w, h);
            proof {
                assert forall|t: int| 0 <= t < st@.len() && m[st@[t] as int] implies reaches(
                    m,
                    wi,
                    s as int,
                    st@[t] as int,
                ) by {
                    if t >= st_mid.len() {
                        lemma_reaches_step(m, wi, s as int, c as int, st@[t] as int);
                    } else {
                        assert(st@[t] == st_mid[t]);
                    }
                }
                assert forall|x: usize| st_mid.contains(x) implies st@.contains(x) by {
                    let t = choose|t: int| 0 <= t < st_mid.len() && st_mid[t] == x;
                    assert(st@[t] == x);
                }
                assert forall|a: int, b: int|
                    #![trigger newly(v0, visited@).contains(a), adjacent(wi, a, b)]
                    newly(v0, visited@).contains(a) && 0 <= b < n && m[b] && adjacent(wi, a, b)
                    implies visited@[b] || st@.contains(b as usize) by {
                    if a != c {
                        assert(gc_before.contains(a));
                        if b != c && !vis_before[b] {
                            assert(st_before.contains(b as usize));
                            assert(st_mid.contains(b as usize));
                        }
                    }
                }
            }
        } else {
            proof {
                assert forall|a: int, b: int|
                    #![trigger newly(v0, visited@).contains(a), adjacent(wi, a, b)]
                    newly(v0, visited@).contains(a) && 0 <= b < n && m[b] && adjacent(wi, a, b)
                    implies visited@[b] || st@.contains(b as usize) by {
                    assert(gc_before.contains(a));
                    if b != c && !vis_before[b] {
                        assert(st_before.contains(b as usize));
                    }
                }
            }
        }
    }
    proof {
        let gc = newly(v0, visited@);
        assert forall|a: int, b: int|
            #![trigger gc.contains(a), adjacent(wi, a, b)]
            gc.contains(a) && 0 <= b < m.len() && m[b] && adjacent(wi, a, b) implies gc.contains(b) by {
            assert(visited@[b] || st@.contains(b as usize));
            if v0[b] {
                assert(marked(v0).contains(b));
                assert(adjacent(wi, b, a));
                assert(marked(v0).contains(a));
            }
        }
        assert(closed(m, wi, gc));
        assert forall|d: Set<int>| #[trigger] closed(m, wi, d) && d.contains(s as int) implies gc.subset_of(d) by {
            assert forall|k: int| gc.contains(k) implies d.contains(k) by {
                assert(reaches(m, wi, s as int, k));
            }
        }
        assert forall|k: int| 0 <= k < m.len() && visited@[k] implies m[k] by {
            if !v0[k] {
                assert(gc.contains(k));
            }
        }
        let mv = marked(visited@);
        assert forall|a: int, b: int|
            #![trigger mv.contains(a), adjacent(wi, a, b)]
            mv.contains(a) && 0 <= b < m.len() && m[b] && adjacent(wi, a, b) implies mv.contains(b) by {
            if v0[a] {
                assert(marked(v0).contains(a));
                assert(marked(v0).contains(b));
            } else {
                assert(gc.contains(a));
                assert(gc.contains(b));
            }
        }
    }
    cv
}

/// Applies the size gate and the aspect gate to the component held in `cv`.
fn component_passes(cv: &Vec<usize>, w: usize, min_size: usize, Ghost(gc): Ghost<Set<int>>) -> (b: bool)
    requires
        w >= 1,
        cv@.len() >= 1,
        gc.finite(),
        gc.len() == cv@.len(),
        forall|t: int| 0 <= t < cv@.len() ==> gc.contains(cv@[t] as int),
        forall|k: int| gc.contains(k) ==> exists|t: int| 0 <= t < cv@.len() && cv@[t] as int == k,
    ensures
        b == component_kept(w as int, min_size as int, gc),
{
    let wi = Ghost(w as int);
    let mut min_x = cv[0] % w;
    let mut max_x = min_x;
    let mut min_y = cv[0] / w;
    let mut max_y = min_y;
    let mut t: usize = 1;
    while t < cv.len()
        invariant
            w >= 1,
            wi@ == w,
            1 <= t <= cv@.len(),
            min_x <= max_x,
            min_y <= max_y,
            forall|u: int|
                #![trigger cv@[u]]
                0 <= u < t ==> min_x <= cv@[u] % w <= max_x && min_y <= cv@[u] / w <= max_y,
            exists|u: int| 0 <= u < t && cv@[u] % w == min_x,
            exists|u: int| 0 <= u < t && cv@[u] % w == max_x,
            exists|u: int| 0 <= u < t && cv@[u] / w == min_y,
            exists|u: int| 0 <= u < t && cv@[u] / w == max_y,
        decreases cv@.len() - t,
    {
        let x = cv[t] % w;
        let y = cv[t] / w;
        if x < min_x {
            min_x = x;
        }
        if x > max_x {
            max_x = x;
        }
        if y < min_y {
            min_y = y;
        }
        if y > max_y {
            max_y = y;
        }
        t += 1;
    }
    let bw = max_x as u128 - min_x as u128 + 1;
    let bh = max_y as u128 - min_y as u128 + 1;
    let aspect = 3 * bh < 10 * bw && bw < 10 * bh;
    proof {
        let (x0, x1, y0, y1) = (min_x as int, max_x as int, min_y as int, max_y as int);
        assert forall|j: int| #[trigger] gc.contains(j) implies x0 <= j % wi@ <= x1 && y0 <= j / wi@ <= y1 by {
            let u = choose|u: int| 0 <= u < cv@.len() && cv@[u] as int == j;
        }
        let u0 = choose|u: int| 0 <= u < t && cv@[u] % w == min_x;
        assert(gc.contains(cv@[u0] as int));
        let u1 = choose|u: int| 0 <= u < t && cv@[u] % w == max_x;
        assert(gc.contains(cv@[u1] as int));
        let u2 = choose|u: int| 0 <= u < t && cv@[u] / w == min_y;
        assert(gc.contains(cv@[u2] as int));
        let u3 = choose|u: int| 0 <= u < t && cv@[u] / w == max_y;
        assert(gc.contains(cv@[u3] as int));
        assert(tight_box(wi@, gc, x0, x1, y0, y1));
        if aspect {
            assert(box_ok(wi@, gc));
        } else {
            assert forall|a0: int, a1: int, b0: int, b1: int|
                #[trigger] tight_box(wi@, gc, a0, a1, b0, b1) implies !aspect_ok(a1 - a0 + 1, b1 - b0 + 1) by {
                lemma_box_unique(wi@, gc, x0, x1, y0, y1, a0, a1, b0, b1);
            }
        }
    }
    cv.len() >= min_size && aspect
}

/// `k` is among the first `t` entries of `cv`.
pub open spec fn listed(cv: Seq<usize>, t: int, k: int) -> bool {
    exists|u: int| 0 <= u < t && cv[u] as int == k
}

/// Sets every entry of `result` whose index `cv` lists.
fn mark_all(result: &mut Vec<bool>, cv: &Vec<usize>)
    requires
        forall|u: int| 0 <= u < cv@.len() ==> cv@[u] < old(result)@.len(),
    ensures
        final(result)@.len() == old(result)@.len(),
        forall|k: int|
            0 <= k < old(result)@.len() ==> final(result)@[k] == (old(result)@[k] || listed(
                cv@,
                cv@.len() as int,
                k,
            )),
{
    let ghost r0 = result@;
    let mut t: usize = 0;
    while t < cv.len()
        invariant
            t <= cv@.len(),
            result@.len() == r0.len(),
            forall|u: int| 0 <= u < cv@.len() ==> cv@[u] < r0.len(),
            forall|k: int|
                0 <= k < r0.len() ==> result@[k] == (r0[k] || listed(cv@, t as int, k)),
        decreases cv@.len() - t,
    {
        let ghost rb = result@;
        let ghost tt = t as int;
        result.set(cv[t], true);
        t += 1;
        proof {
            assert forall|k: int| 0 <= k < r0.len() implies result@[k] == (r0[k] || listed(
                cv@,
                t as int,
                k,
            )) by {
                if k == cv@[tt] as int {
                    assert(0 <= tt < t && cv@[tt] as int == k);
                    assert(listed(cv@, t as int, k));
                    assert(result@[k]);
                } else {
                    assert(result@[k] == rb[k]);
                    assert(rb[k] == (r0[k] || listed(cv@, tt, k)));
                    if listed(cv@, tt, k) {
                        let u = choose|u: int| 0 <= u < tt && cv@[u] as int == k;
                        assert(0 <= u < t && cv@[u] as int == k);
                    }
                    if listed(cv@, t as int, k) {
                        let u = choose|u: int| 0 <= u < t && cv@[u] as int == k;
                        assert(u < tt);
                    }
                }
            }
        }
    }
}

proof fn lemma_component_results(
    m: Seq<bool>,
    w: int,
    min_size: int,
    v0: Seq<bool>,
    v1: Seq<bool>,
    r0: Seq<bool>,
    r1: Seq<bool>,
    cv: Seq<usize>,
    s: int,
    keep: bool,
)
    requires
        v0.len() == m.len(),
        v1.len() == m.len(),
        r0.len() == m.len(),
        r1.len() == m.len(),
        0 <= s < m.len(),
        m[s],
        is_component(m, w, newly(v0, v1), s),
        keep == component_kept(w, min_size, newly(v0, v1)),
        forall|k: int| 0 <= k < m.len() && v0[k] ==> v1[k],
        forall|k: int| 0 <= k < m.len() && v1[k] ==> m[k],
        forall|k: int| 0 <= k < m.len() && v0[k] ==> r0[k] == kept(m, w, min_size, k),
        forall|k: int| 0 <= k < m.len() && !v0[k] ==> !r0[k],
        forall|u: int| 0 <= u < cv.len() ==> newly(v0, v1).contains(cv[u] as int),
        forall|k: int| newly(v0, v1).contains(k) ==> listed(cv, cv.len() as int, k),
        keep ==> forall|k: int|
            0 <= k < m.len() ==> r1[k] == (r0[k] || listed(cv, cv.len() as int, k)),
        !keep ==> r1 == r0,
    ensures
        forall|k: int| 0 <= k < m.len() && v1[k] ==> r1[k] == kept(m, w, min_size, k),
        forall|k: int| 0 <= k < m.len() && !v1[k] ==> !r1[k],
{
    let gc = newly(v0, v1);
    assert forall|k: int| 0 <= k < m.len() && v1[k] implies r1[k] == kept(m, w, min_size, k) by {
        if gc.contains(k) {
            lemma_component_member(m, w, gc, s, k);
            if keep {
                assert(listed(cv, cv.len() as int, k));
                assert(r1[k]);
                assert(is_component(m, w, gc, k) && component_kept(w, min_size, gc));
            } else {
                assert(!r0[k]);
                if exists|c: Set<int>| #[trigger] is_component(m, w, c, k) && component_kept(w, min_size, c) {
                    let c = choose|c: Set<int>| #[trigger] is_component(m, w, c, k) && component_kept(w, min_size, c);
                    lemma_component_unique(m, w, c, gc, k);
                }
            }
        } else {
            assert(v0[k]);
            if keep && listed(cv, cv.len() as int, k) {
                let u = choose|u: int| 0 <= u < cv.len() && cv[u] as int == k;
                assert(gc.contains(k));
            }
        }
    }
    assert forall|k: int| 0 <= k < m.len() && !v1[k] implies !r1[k] by {
        assert(!v0[k]);
        if keep && listed(cv, cv.len() as int, k) {
            let u = choose|u: int| 0 <= u < cv.len() && cv[u] as int == k;
            assert(gc.contains(k));
        }
    }
}

/// Keeps the pixels of `mask` whose 8-connected component has at least
/// `min_size` pixels and a bounding box with `0.3 < width / height < 10`.
pub fn filter_connected_components(mask: &[bool], width: usize, height: usize, min_size: usize) -> (r: Vec<bool>)
    requires
        width >= 1,
        mask@.len() == width * height,
    ensures
        r@.len() == mask@.len(),
        forall|i: int|
            0 <= i < r@.len() ==> r@[i] == kept(mask@, width as int, min_size as int, i),
{
    let ghost m = mask@;
    let ghost wi = width as int;
    let n = mask.len();
    let mut visited = falses(n);
    let mut result = falses(n);
    proof {
        reveal(closed);
        assert(marked(visited@) =~= Set::empty());
    }
    let mut idx: usize = 0;
    while idx < n
        invariant
            width >= 1,
            m == mask@,
            wi == width,
            n == m.len(),
            n == width * height,
            visited@.len() == n,
            result@.len() == n,
            forall|k: int| 0 <= k < n && visited@[k] ==> m[k],
            closed(m, wi, marked(visited@)),
            forall|k: int|
                0 <= k < n && visited@[k] ==> result@[k] == kept(m, wi, min_size as int, k),
            forall|k: int| 0 <= k < n && !visited@[k] ==> !result@[k],
            forall|k: int| 0 <= k < idx && m[k] ==> visited@[k],
            idx <= n,
        decreases n - idx,
    {
        if mask[idx] && !visited[idx] {
            let ghost v0 = visited@;
            let cv = explore(mask, width, height, &mut visited, idx);
            let ghost gc = newly(v0, visited@);
            let keep = component_passes(&cv, width, min_size, Ghost(gc));
            let ghost r0 = result@;
            if keep {
                mark_all(&mut result, &cv);
            }
            proof {
                lemma_component_results(
                    m, wi, min_size as int, v0, visited@, r0, result@, cv@, idx as int, keep);
            }
        }
        idx += 1;
    }
    proof {
        assert forall|i: int| 0 <= i < n implies result@[i] == kept(m, wi, min_size as int, i) by {
            if !m[i] {
                assert(!visited@[i]);
            }
        }
    }
    result
}

} // verus!

verus! {

/// A component with fewer pixels than the size gate is rejected: none of its
/// pixels is kept.
pub proof fn lemma_small_component_rejected(m: Seq<bool>, w: int, min_size: int, c: Set<int>, i: int)
    requires
        is_component(m, w, c, i),
        c.finite(),
        c.len() < min_size,
    ensures
        !kept(m, w, min_size, i),
{
    if kept(m, w, min_size, i) {
        let c2 = choose|c2: Set<int>| #[trigger] is_component(m, w, c2, i) && component_kept(w, min_size, c2);
        lemma_component_unique(m, w, c, c2, i);
    }
}

/// A component whose bounding box is at most 0.3 times as wide as it is tall
/// is rejected, whatever its size.
pub proof fn lemma_narrow_component_rejected(
    m: Seq<bool>,
    w: int,
    min_size: int,
    c: Set<int>,
    i: int,
    x0: int,
    x1: int,
    y0: int,
    y1: int,
)
    requires
        is_component(m, w, c, i),
        tight_box(w, c, x0, x1, y0, y1),
        10 * (x1 - x0 + 1) <= 3 * (y1 - y0 + 1),
    ensures
        !kept(m, w, min_size, i),
{
    if kept(m, w, min_size, i) {
        let c2 = choose|c2: Set<int>| #[trigger] is_component(m, w, c2, i) && component_kept(w, min_size, c2);
        lemma_component_unique(m, w, c, c2, i);
        let (a0, a1, b0, b1) = choose|a0: int, a1: int, b0: int, b1: int|
            #[trigger] tight_box(w, c, a0, a1, b0, b1) && aspect_ok(a1 - a0 + 1, b1 - b0 + 1);
        lemma_box_unique(w, c, x0, x1, y0, y1, a0, a1, b0, b1);
    }
}

} // verus!
