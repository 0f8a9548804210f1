use crate::offset_set::{new_offset_set, offset_set_contains, offset_set_insert};
use crate::raster::{Raster, RasterModel, lemma_offset_in_range};
use fnv::FnvHashSet;
use vstd::arithmetic::div_mod::{lemma_fundamental_div_mod, lemma_fundamental_div_mod_converse};
use vstd::prelude::*;
use vstd::set_lib::{lemma_int_range, lemma_len_subset, set_int_range};

verus! {

pub open spec fn dist(a: int, b: int) -> int {
    if a >= b {
        a - b
    } else {
        b - a
    }
}

/// Offsets `i` and `j` of a `w` by `h` grid are pixels that share an edge.
pub open spec fn adjacent(w: int, h: int, i: int, j: int) -> bool {
    &&& 0 <= i < w * h
    &&& 0 <= j < w * h
    &&& dist(i % w, j % w) + dist(i / w, j / w) == 1
}

/// From pixel `i` a fill of color `c` may step to pixel `j`.
pub open spec fn fill_step(r: RasterModel, c: u8, i: usize, j: usize) -> bool {
    adjacent(r.width as int, r.height as int, i as int, j as int) && r.pixels[j as int] == c
}

/// No fill step of color `c` leads out of `t`.
pub open spec fn fill_closed(r: RasterModel, c: u8, t: Set<usize>) -> bool {
    forall|i: usize, j: usize|
        #![trigger t.contains(i), fill_step(r, c, i, j)]
        t.contains(i) && fill_step(r, c, i, j) ==> t.contains(j)
}

/// `s` is the 4-connected region of pixels of the seed's color that holds
/// `seed`: it holds the seed, only pixels of that color, no step leads out
/// of it, and it lies inside every set with those last two properties.
pub open spec fn is_region(r: RasterModel, seed: usize, s: Set<usize>) -> bool {
    let c = r.pixels[seed as int];
    &&& s.contains(seed)
    &&& forall|i: usize| #[trigger] s.contains(i) ==> i < r.pixels.len() && r.pixels[i as int] == c
    &&& fill_closed(r, c, s)
    &&& forall|t: Set<usize>| fill_closed(r, c, t) && t.contains(seed) ==> #[trigger] s.subset_of(t)
}

/// The seed has an edge-sharing pixel of its own color.
pub open spec fn has_like_neighbour(r: RasterModel, seed: usize) -> bool {
    exists|j: usize| fill_step(r, r.pixels[seed as int], seed, j)
}

/// The neighbours of offset `i` in a `w` by `h` grid, and nothing else.
pub(crate) proof fn lemma_neighbours(w: int, h: int, i: int)
    requires
        w > 0,
        0 <= i < w * h,
    ensures
        0 <= i % w < w,
        0 <= i / w < h,
        i % w > 0 ==> adjacent(w, h, i, i - 1),
        i % w + 1 < w ==> adjacent(w, h, i, i + 1),
        i / w > 0 ==> adjacent(w, h, i, i - w),
        i / w + 1 < h ==> adjacent(w, h, i, i + w),
        forall|j: int|
            #[trigger] adjacent(w, h, i, j) ==> (i % w > 0 && j == i - 1) || (i % w + 1 < w && j
                == i + 1) || (i / w > 0 && j == i - w) || (i / w + 1 < h && j == i + w),
{
    let x = i % w;
    let y = i / w;
    lemma_fundamental_div_mod(i, w);
    assert(0 <= x < w);
    assert(0 <= y < h) by (nonlinear_arith)
        requires
            i == w * y + x,
            0 <= x < w,
            0 <= i < w * h,
            w > 0,
    ;
    assert(w * y + w == w * (y + 1)) by (nonlinear_arith);
    assert(w * (y + 1) <= w * h) by (nonlinear_arith)
        requires
            y + 1 <= h,
            w > 0,
    ;
    assert(w * (y - 1) == w * y - w) by (nonlinear_arith);
    if x > 0 {
        lemma_fundamental_div_mod_converse(i - 1, w, y, x - 1);
    }
    if x + 1 < w {
        lemma_fundamental_div_mod_converse(i + 1, w, y, x + 1);
    }
    if y > 0 {
        lemma_fundamental_div_mod_converse(i - w, w, y - 1, x);
    }
    if y + 1 < h {
        assert(w * (y + 2) <= w * h) by (nonlinear_arith)
            requires
                y + 2 <= h,
                w > 0,
        ;
        assert(w * (y + 1) + w == w * (y + 2)) by (nonlinear_arith);
        lemma_fundamental_div_mod_converse(i + w, w, y + 1, x);
    }
    assert forall|j: int| #[trigger] adjacent(w, h, i, j) implies (x > 0 && j == i - 1) || (x + 1
        < w && j == i + 1) || (y > 0 && j == i - w) || (y + 1 < h && j == i + w) by {
        lemma_fundamental_div_mod(j, w);
        let xj = j % w;
        let yj = j / w;
        assert(0 <= yj < h) by (nonlinear_arith)
            requires
                j == w * yj + xj,
                0 <= xj < w,
                0 <= j < w * h,
                w > 0,
        ;
        if yj == y + 1 {
            assert(w * yj == w * y + w) by (nonlinear_arith)
                requires
                    yj == y + 1,
            ;
        } else if yj == y - 1 {
            assert(w * yj == w * y - w) by (nonlinear_arith)
                requires
                    yj == y - 1,
            ;
        }
    }
}

/// What the search keeps true: the found pixels are distinct, of the fill
/// color, and lie in every closed set that holds the seed; the queued ones
/// are found.
pub open spec fn search_inv(
    r: RasterModel,
    c: u8,
    seed: usize,
    visited: Set<usize>,
    found: Seq<usize>,
    stack: Seq<usize>,
) -> bool {
    &&& visited == found.to_set()
    &&& visited.contains(seed)
    &&& found.no_duplicates()
    &&& stack.no_duplicates()
    &&& forall|k: int|
        0 <= k < found.len() ==> (#[trigger] found[k]) < r.pixels.len() && r.pixels[found[k] as int]
            == c
    &&& forall|k: int| 0 <= k < stack.len() ==> visited.contains(#[trigger] stack[k])
    &&& forall|t: Set<usize>|
        fill_closed(r, c, t) && t.contains(seed) ==> #[trigger] visited.subset_of(t)
}

/// Marks `j` and queues it when it has the fill color and was not seen yet.
fn try_visit(
    img: &Raster,
    c: u8,
    seed: usize,
    i: usize,
    j: usize,
    visited: &mut FnvHashSet<usize>,
    found: &mut Vec<usize>,
    stack: &mut Vec<usize>,
)
    requires
        fill_step_adjacent(img@, i, j),
        img@.wf(),
        old(visited)@.contains(i),
        search_inv(img@, c, seed, old(visited)@, old(found)@, old(stack)@),
    ensures
        search_inv(img@, c, seed, final(visited)@, final(found)@, final(stack)@),
        img@.pixels[j as int] == c && !old(visited)@.contains(j) ==> {
            &&& final(found)@.len() == old(found)@.len() + 1
            &&& final(stack)@ == old(stack)@.push(j)
        },
        !(img@.pixels[j as int] == c && !old(visited)@.contains(j)) ==> {
            &&& final(found)@ == old(found)@
            &&& final(stack)@ == old(stack)@
        },
        old(visited)@.subset_of(final(visited)@),
        final(visited)@.contains(j) || img@.pixels[j as int] != c,
        forall|v: usize| #[trigger]
            final(visited)@.contains(v) && !old(visited)@.contains(v) ==> final(stack)@.contains(v),
        forall|v: usize| #[trigger] old(stack)@.contains(v) ==> final(stack)@.contains(v),
{
    let px = img.get_pixels();
    assert(j < px@.len());
    if px[j] == c && !offset_set_contains(visited, j) {
        offset_set_insert(visited, j);
        found.push(j);
        stack.push(j);
        assert(found@.to_set() =~= old(found)@.to_set().insert(j)) by {
            assert forall|v: usize| found@.to_set().contains(v) <==> old(found)@.to_set().insert(
                j,
            ).contains(v) by {
                if found@.contains(v) && v != j {
                    let k = choose|k: int| 0 <= k < found@.len() && found@[k] == v;
                    assert(old(found)@[k] == v);
                }
                if old(found)@.contains(v) {
                    let k = choose|k: int| 0 <= k < old(found)@.len() && old(found)@[k] == v;
                    assert(found@[k] == v);
                }
                if v == j {
                    assert(found@[found@.len() - 1] == j);
                }
            }
        }
        assert forall|t: Set<usize>|
            fill_closed(img@, c, t) && t.contains(seed) implies #[trigger] visited@.subset_of(t) by {
            assert(old(visited)@.subset_of(t));
            assert(t.contains(i));
            assert(fill_step(img@, c, i, j));
        }
        assert(!old(found)@.contains(j));
        assert(!old(stack)@.contains(j));
        assert forall|k: int| 0 <= k < stack@.len() implies visited@.contains(#[trigger] stack@[k]) by {
            if k < old(stack)@.len() {
                assert(old(visited)@.contains(old(stack)@[k]));
            }
        }
        assert(stack@[stack@.len() - 1] == j);
        assert forall|v: usize| #[trigger] old(stack)@.contains(v) implies stack@.contains(v) by {
            let k = choose|k: int| 0 <= k < old(stack)@.len() && old(stack)@[k] == v;
            assert(stack@[k] == v);
        }
    }
}

/// `j` is a neighbour of `i` inside the raster.
pub open spec fn fill_step_adjacent(r: RasterModel, i: usize, j: usize) -> bool {
    adjacent(r.width as int, r.height as int, i as int, j as int)
}

/// Distinct offsets below `n` number at most `n`.
proof fn lemma_distinct_below(s: Seq<usize>, n: int)
    requires
        0 <= n,
        s.no_duplicates(),
        forall|k: int| 0 <= k < s.len() ==> (#[trigger] s[k]) < n,
    ensures
        s.len() <= n,
{
    let si = s.map_values(|u: usize| u as int);
    assert(si.no_duplicates()) by {
        assert forall|a: int, b: int| 0 <= a < si.len() && 0 <= b < si.len() && a != b implies si[a]
            != si[b] by {
            assert(s[a] != s[b]);
        }
    }
    si.unique_seq_to_set();
    vstd::seq_lib::seq_to_set_is_finite(si);
    lemma_int_range(0, n);
    assert(si.to_set().subset_of(set_int_range(0, n))) by {
        assert forall|v: int| si.to_set().contains(v) implies set_int_range(0, n).contains(v) by {
            let k = choose|k: int| 0 <= k < si.len() && si[k] == v;
            assert(s[k] < n);
        }
    }
    lemma_len_subset(si.to_set(), set_int_range(0, n));
}

/// The pixels that a fill from `start` reaches: the 4-connected region of
/// the start pixel's color, or nothing when the start pixel has no
/// neighbour of its color.
pub fn fill_pixels(image: &Raster, start: (u8, u8)) -> (r: Result<Vec<usize>, crate::raster::RasterError>)
    requires
        image.wf(),
    ensures
        !(start.0 < image@.width && start.1 < image@.height) ==> r == Err::<
            Vec<usize>,
            crate::raster::RasterError,
        >(crate::raster::RasterError::OutOfBounds),
        (start.0 < image@.width && start.1 < image@.height) ==> r is Ok,
        r matches Ok(v) ==> {
            let seed = image@.offset(start.0 as int, start.1 as int) as usize;
            &&& v@.no_duplicates()
            &&& has_like_neighbour(image@, seed) ==> is_region(image@, seed, v@.to_set())
            &&& !has_like_neighbour(image@, seed) ==> v@.len() == 0
        },
{
    let seed = match image.get_pixel_index(start.0, start.1) {
        Ok(i) => i,
        Err(e) => {
            return Err(e);
        },
    };
    let ghost r = image@;
    proof {
        lemma_offset_in_range(r.width as int, r.height as int, start.0 as int, start.1 as int);
    }
    let w = image.width() as usize;
    let h = image.height() as usize;
    let px = image.get_pixels();
    let n = px.len();
    let c = px[seed];
    let mut visited = new_offset_set();
    let mut found: Vec<usize> = Vec::new();
    let mut stack: Vec<usize> = Vec::new();
    offset_set_insert(&mut visited, seed);
    found.push(seed);
    stack.push(seed);
    assert(found@ =~= seq![seed]);
    assert(found@.to_set() =~= set![seed]) by {
        assert(found@[0] == seed);
    }
    assert(w > 0) by (nonlinear_arith)
        requires
            seed < n,
            n == w * h,
    ;
    while stack.len() > 0
        invariant
            r == image@,
            r.wf(),
            w == r.width,
            h == r.height,
            n == r.pixels.len(),
            n == w * h,
            w > 0,
            px@ == r.pixels,
            seed < n,
            c == r.pixels[seed as int],
            search_inv(r, c, seed, visited@, found@, stack@),
            forall|i: usize, j: usize|
                #![trigger visited@.contains(i), fill_step(r, c, i, j)]
                visited@.contains(i) && !stack@.contains(i) && fill_step(r, c, i, j)
                    ==> visited@.contains(j),
        decreases 2 * (n - found@.len()) + stack@.len(),
    {
        proof {
            lemma_distinct_below(found@, n as int);
        }
        let ghost old_visited = visited@;
        let ghost old_stack = stack@;
        let i = stack.pop().unwrap();
        assert(old_stack =~= stack@.push(i));
        let ghost popped = stack@;
        assert(visited@.contains(i)) by {
            assert(old_stack[old_stack.len() - 1] == i);
        }
        assert(!stack@.contains(i)) by {
            if stack@.contains(i) {
                let k = choose|k: int| 0 <= k < stack@.len() && stack@[k] == i;
                assert(old_stack[k] == old_stack[old_stack.len() - 1]);
            }
        }
        assert(i < n) by {
            let k = choose|k: int| 0 <= k < found@.len() && found@[k] == i;
        }
        proof {
            lemma_neighbours(w as int, h as int, i as int);
        }
        let x = i % w;
        let y = i / w;
        if x > 0 {
            try_visit(image, c, seed, i, i - 1, &mut visited, &mut found, &mut stack);
        }
        if x + 1 < w {
            try_visit(image, c, seed, i, i + 1, &mut visited, &mut found, &mut stack);
        }
        if y > 0 {
            try_visit(image, c, seed, i, i - w, &mut visited, &mut found, &mut stack);
        }
        if y + 1 < h {
            try_visit(image, c, seed, i, i + w, &mut visited, &mut found, &mut stack);
        }
        proof {
            lemma_distinct_below(found@, n as int);
            assert forall|i2: usize, j: usize|
                #![trigger visited@.contains(i2), fill_step(r, c, i2, j)]
                visited@.contains(i2) && !stack@.contains(i2) && fill_step(r, c, i2, j)
                    implies visited@.contains(j) by {
                if i2 == i {
                    assert(adjacent(w as int, h as int, i as int, j as int));
                } else {
                    assert(old_visited.contains(i2)) by {
                        if !old_visited.contains(i2) {
                            let k = choose|k: int| 0 <= k < found@.len() && found@[k] == i2;
                            assert(stack@.contains(i2));
                        }
                    }
                    assert(!old_stack.contains(i2)) by {
                        if old_stack.contains(i2) {
                            let k = choose|k: int| 0 <= k < old_stack.len() && old_stack[k] == i2;
                            assert(k < old_stack.len() - 1);
                            assert(popped[k] == i2);
                            assert(popped.contains(i2));
                        }
                    }
                }
            }
        }
    }
    proof {
        assert(fill_closed(r, c, visited@));
    }
    if found.len() == 1 {
        proof {
            assert(found@[0] == seed) by {
                let k = choose|k: int| 0 <= k < found@.len() && found@[k] == seed;
            }
            if has_like_neighbour(r, seed) {
                let j = choose|j: usize| fill_step(r, r.pixels[seed as int], seed, j);
                assert(visited@.contains(j));
                let k = choose|k: int| 0 <= k < found@.len() && found@[k] == j;
                assert(j == seed);
            }
        }
        return Ok(Vec::new());
    }
    proof {
        if !has_like_neighbour(r, seed) {
            let one = set![seed];
            assert(fill_closed(r, c, one)) by {
                assert forall|i: usize, j: usize|
                    #![trigger one.contains(i), fill_step(r, c, i, j)]
                    one.contains(i) && fill_step(r, c, i, j) implies one.contains(j) by {
                    assert(i == seed);
                }
            }
            assert(visited@.subset_of(one));
            assert(found@[0] != found@[1]);
            assert(visited@.contains(found@[0]));
            assert(visited@.contains(found@[1]));
        }
        assert forall|i: usize| #[trigger] visited@.contains(i) implies i < r.pixels.len() && r.pixels[i as int] == c by {
            let k = choose|k: int| 0 <= k < found@.len() && found@[k] == i;
        }
    }
    Ok(found)
}

} // verus!
