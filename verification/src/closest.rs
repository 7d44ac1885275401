//! The stars closest to a star: a window of fixed size, kept in ascending
//! order of length, into which each other star is placed in turn.

use vstd::prelude::*;
use crate::number::LENGTH_MAX;

verus! {

/// The window: the stars that are closest so far and their lengths, place
/// by place. A place that no star has taken holds star 0 and `LENGTH_MAX`.
pub struct Window {
    pub stars: Seq<usize>,
    pub lengths: Seq<u64>,
}

/// The window of `size` places before any star is placed.
pub open spec fn empty_window(size: int) -> Window {
    Window {
        stars: Seq::new(size as nat, |p: int| 0usize),
        lengths: Seq::new(size as nat, |p: int| LENGTH_MAX),
    }
}

/// The first place at or after `from` whose length is greater than `length`;
/// the number of places if there is none.
pub open spec fn place_of(lengths: Seq<u64>, length: u64, from: int) -> int
    decreases lengths.len() - from,
{
    if from < 0 || from >= lengths.len() || length < lengths[from] {
        from
    } else {
        place_of(lengths, length, from + 1)
    }
}

/// The window after `star` at `length` is placed: it goes before the first
/// longer entry, and the last entry leaves; with no longer entry the window
/// stays as it is.
pub open spec fn place(w: Window, length: u64, star: usize) -> Window {
    let at = place_of(w.lengths, length, 0);
    if at < w.lengths.len() {
        Window {
            stars: w.stars.insert(at, star).drop_last(),
            lengths: w.lengths.insert(at, length).drop_last(),
        }
    } else {
        w
    }
}

/// The window of `size` places after the stars before `upto` are placed, in
/// the order of the list and without the star `anchor`. `distance` holds the
/// length from the anchor to each star.
pub open spec fn scan(distance: Seq<u64>, anchor: int, size: int, upto: int) -> Window
    decreases upto,
{
    if upto <= 0 {
        empty_window(size)
    } else {
        let before = scan(distance, anchor, size, upto - 1);
        if upto - 1 == anchor {
            before
        } else {
            place(before, distance[upto - 1], (upto - 1) as usize)
        }
    }
}

/// The vertices of the polygon of `anchor`: the anchor, then the stars of
/// the window but the last.
pub open spec fn closest(distance: Seq<u64>, anchor: int, edges: int) -> Seq<usize> {
    scan(distance, anchor, edges, distance.len() as int).stars.insert(
        0,
        anchor as usize,
    ).drop_last()
}

/// The star `j` is another star than the anchor, at a length that can be
/// taken into a polygon.
pub open spec fn usable(distance: Seq<u64>, anchor: int, j: int) -> bool {
    0 <= j < distance.len() && j != anchor && distance[j] < LENGTH_MAX
}

/// The star `a` is closer than the star `b`: at a smaller length, or at the
/// same length and earlier in the list.
pub open spec fn nearer(distance: Seq<u64>, a: int, b: int) -> bool {
    distance[a] < distance[b] || (distance[a] == distance[b] && a < b)
}

/// Every other star than the anchor is at a usable length.
pub open spec fn others_usable(distance: Seq<u64>, anchor: int) -> bool {
    forall|j: int| 0 <= j < distance.len() && j != anchor ==> #[trigger] distance[j] < LENGTH_MAX
}

/// No star stands twice in the list.
pub open spec fn all_differ(stars: Seq<usize>) -> bool {
    forall|p: int, q: int| 0 <= p < q < stars.len() ==> #[trigger] stars[p] != #[trigger] stars[q]
}

/// The stars after the first stand closest first, and of two stars at the
/// same length the earlier of the list first.
pub open spec fn closest_first(distance: Seq<u64>, stars: Seq<usize>) -> bool {
    forall|p: int, q: int|
        1 <= p < q < stars.len() ==> nearer(
            distance,
            #[trigger] stars[p] as int,
            #[trigger] stars[q] as int,
        )
}

/// Every other star than the anchor is in the list, or farther than the
/// last star of the list.
pub open spec fn none_closer(distance: Seq<u64>, anchor: int, stars: Seq<usize>) -> bool {
    forall|j: int|
        0 <= j < distance.len() && j != anchor ==> stars.len() == 1 || stars.contains(j as usize)
            || #[trigger] nearer(distance, stars[stars.len() - 1] as int, j)
}

/// The number of usable stars before `upto`.
pub open spec fn usable_count(distance: Seq<u64>, anchor: int, upto: int) -> int
    decreases upto,
{
    if upto <= 0 {
        0
    } else {
        usable_count(distance, anchor, upto - 1) + if usable(distance, anchor, upto - 1) {
            1int
        } else {
            0int
        }
    }
}

/// The place `p` of the window holds a star.
pub open spec fn taken(w: Window, p: int) -> bool {
    w.lengths[p] < LENGTH_MAX
}

/// The star `j` stands in the window.
pub open spec fn in_window(w: Window, j: int) -> bool {
    exists|p: int| 0 <= p < w.stars.len() && taken(w, p) && #[trigger] w.stars[p] == j
}

/// The window is full, and its last star is closer than `j`; or it has no
/// place at all.
pub open spec fn beyond(distance: Seq<u64>, w: Window, j: int) -> bool {
    w.stars.len() == 0 || (taken(w, w.stars.len() - 1) && nearer(
        distance,
        w.stars[w.stars.len() - 1] as int,
        j,
    ))
}

/// If the place `q` holds a star, the place `p` holds a closer one.
pub open spec fn in_order(distance: Seq<u64>, w: Window, p: int, q: int) -> bool {
    taken(w, q) ==> taken(w, p) && nearer(distance, w.stars[p] as int, w.stars[q] as int)
}

/// What holds of the window once the stars before `upto` are placed: it
/// holds the closest usable stars among them, closest first, in as many
/// places from the front as there are such stars, and nothing else.
pub open spec fn holds_closest(
    distance: Seq<u64>,
    anchor: int,
    size: int,
    upto: int,
    w: Window,
) -> bool {
    &&& w.stars.len() == size
    &&& w.lengths.len() == size
    &&& forall|p: int|
        0 <= p < size ==> if #[trigger] taken(w, p) {
            usable(distance, anchor, w.stars[p] as int) && w.stars[p] < upto
                && distance[w.stars[p] as int] == w.lengths[p]
        } else {
            w.lengths[p] == LENGTH_MAX && w.stars[p] == 0
        }
    &&& forall|p: int, q: int| 0 <= p < q < size ==> #[trigger] in_order(distance, w, p, q)
    &&& forall|j: int|
        0 <= j < upto && #[trigger] usable(distance, anchor, j) ==> in_window(w, j) || beyond(
            distance,
            w,
            j,
        )
    &&& forall|p: int|
        0 <= p < size ==> (#[trigger] taken(w, p) <==> p < usable_count(distance, anchor, upto))
}

/// The lengths of the stars of `closest`, place by place: zero for the
/// anchor, and `LENGTH_MAX` where no star took the place.
pub open spec fn closest_lengths(distance: Seq<u64>, anchor: int, edges: int) -> Seq<u64> {
    scan(distance, anchor, edges, distance.len() as int).lengths.insert(0, 0u64).drop_last()
}

/// Where `place_of` points: nothing before it is longer than `length`, and
/// the entry at it is.
pub proof fn lemma_place_of(lengths: Seq<u64>, length: u64, from: int)
    requires
        0 <= from <= lengths.len(),
    ensures
        from <= place_of(lengths, length, from) <= lengths.len(),
        forall|p: int| from <= p < place_of(lengths, length, from) ==> lengths[p] <= length,
        place_of(lengths, length, from) < lengths.len() ==> length < lengths[place_of(
            lengths,
            length,
            from,
        )],
    decreases lengths.len() - from,
{
    if from < lengths.len() && length >= lengths[from] {
        lemma_place_of(lengths, length, from + 1);
    }
}

/// Places `star` at `length` into the window held in the two vectors.
fn place_star(star_vec: &mut Vec<usize>, dist_vec: &mut Vec<u64>, length: u64, star: usize)
    requires
        old(star_vec).len() == old(dist_vec).len(),
    ensures
        (Window { stars: final(star_vec)@, lengths: final(dist_vec)@ }) == place(
            (Window { stars: old(star_vec)@, lengths: old(dist_vec)@ }),
            length,
            star,
        ),
        final(star_vec).len() == final(dist_vec).len(),
        final(star_vec).len() == old(star_vec).len(),
{
    let size: usize = dist_vec.len();
    let mut finished = false;
    let mut i: usize = 0;
    while i < size && !finished
        invariant
            i <= size,
            star_vec.len() == size,
            dist_vec.len() == size,
            !finished ==> star_vec@ == old(star_vec)@ && dist_vec@ == old(dist_vec)@,
            !finished ==> place_of(old(dist_vec)@, length, 0) == place_of(
                old(dist_vec)@,
                length,
                i as int,
            ),
            finished ==> (Window { stars: star_vec@, lengths: dist_vec@ }) == place(
                (Window { stars: old(star_vec)@, lengths: old(dist_vec)@ }),
                length,
                star,
            ),
        decreases size - i + (if finished { 0int } else { 1int }),
    {
        if length < dist_vec[i] {
            star_vec.insert(i, star);
            dist_vec.insert(i, length);
            star_vec.pop();
            dist_vec.pop();
            finished = true;
        }
        i += 1;
    }
}

/// For the star `star`, of which `distance` holds the length to each star
/// of the list: the star itself and then the `edges - 1` stars closest to
/// it, closest first. Of two stars at the same length the one that stands
/// first in the list is the closer.
pub fn closest_stars(distance: &Vec<u64>, star: usize, edges: usize) -> (star_vec: Vec<usize>)
    ensures
        star_vec@ == closest(distance@, star as int, edges as int),
        star_vec.len() == edges,
        edges >= 1 ==> star_vec[0] == star,
        star < distance.len() ==> forall|p: int|
            0 <= p < edges ==> #[trigger] star_vec[p] < distance.len(),
        star < distance.len() && 1 <= edges <= distance.len() && others_usable(
            distance@,
            star as int,
        ) ==> all_differ(star_vec@) && closest_first(distance@, star_vec@) && none_closer(
            distance@,
            star as int,
            star_vec@,
        ),
{
    let mut star_vec: Vec<usize> = vec![0usize; edges];
    let mut dist_vec: Vec<u64> = vec![LENGTH_MAX; edges];
    assert(star_vec@ =~= empty_window(edges as int).stars);
    assert(dist_vec@ =~= empty_window(edges as int).lengths);
    let mut id_b: usize = 0;
    while id_b < distance.len()
        invariant
            id_b <= distance.len(),
            star_vec.len() == edges,
            dist_vec.len() == edges,
            (Window { stars: star_vec@, lengths: dist_vec@ }) == scan(
                distance@,
                star as int,
                edges as int,
                id_b as int,
            ),
        decreases distance.len() - id_b,
    {
        if id_b != star {
            place_star(&mut star_vec, &mut dist_vec, distance[id_b], id_b);
        }
        id_b += 1;
    }
    star_vec.insert(0, star);
    star_vec.pop();
    proof {
        if star < distance.len() {
            lemma_closest_in_range(distance@, star as int, edges as int);
            if 1 <= edges <= distance.len() && others_usable(distance@, star as int) {
                lemma_closest_stars(distance@, star as int, edges as int);
            }
        }
    }
    star_vec
}

/// There are no more usable stars before `upto` than stars.
pub proof fn lemma_usable_count_bounds(distance: Seq<u64>, anchor: int, upto: int)
    ensures
        0 <= usable_count(distance, anchor, upto),
        usable_count(distance, anchor, upto) <= upto || upto < 0,
    decreases upto,
{
    if upto > 0 {
        lemma_usable_count_bounds(distance, anchor, upto - 1);
    }
}

/// Placing the next star keeps the window in order.
proof fn lemma_place_holds(distance: Seq<u64>, anchor: int, size: int, j: int, w: Window)
    requires
        0 <= j < distance.len(),
        j <= usize::MAX,
        j != anchor,
        holds_closest(distance, anchor, size, j, w),
    ensures
        holds_closest(distance, anchor, size, j + 1, place(w, distance[j], j as usize)),
{
    let d = distance[j];
    let at = place_of(w.lengths, d, 0);
    let n = place(w, d, j as usize);
    let count = usable_count(distance, anchor, j);
    lemma_place_of(w.lengths, d, 0);
    lemma_usable_count_bounds(distance, anchor, j);
    assert(usable_count(distance, anchor, j + 1) == count + if usable(distance, anchor, j) {
        1int
    } else {
        0int
    });
    if at < size {
        assert(!taken(w, at) ==> w.lengths[at] == LENGTH_MAX);
    }
    assert forall|p: int| 0 <= p < at && d < LENGTH_MAX implies #[trigger] taken(w, p) && nearer(
        distance,
        w.stars[p] as int,
        j,
    ) && p < count by {
        assert(w.lengths[p] <= d);
        assert(taken(w, p));
    }
    if at < size {
        assert(usable(distance, anchor, j));
        assert(at <= count) by {
            if at > 0 {
                assert(w.lengths[at - 1] <= d);
                assert(taken(w, at - 1));
            }
        }
        assert forall|p: int| 0 <= p < size implies (#[trigger] taken(n, p) == (if p < at {
            taken(w, p)
        } else if p == at {
            true
        } else {
            taken(w, p - 1)
        }) && n.stars[p] == (if p < at {
            w.stars[p]
        } else if p == at {
            j as usize
        } else {
            w.stars[p - 1]
        }) && n.lengths[p] == (if p < at {
            w.lengths[p]
        } else if p == at {
            d
        } else {
            w.lengths[p - 1]
        })) by {}
        assert forall|p: int| 0 <= p < size implies if #[trigger] taken(n, p) {
            usable(distance, anchor, n.stars[p] as int) && n.stars[p] < j + 1
                && distance[n.stars[p] as int] == n.lengths[p]
        } else {
            n.lengths[p] == LENGTH_MAX && n.stars[p] == 0
        } by {
            if p < at {
                assert(taken(w, p));
            } else if p > at {
                assert(taken(w, p - 1) == taken(n, p));
            }
        }
        assert forall|p: int, q: int| 0 <= p < q < size implies #[trigger] in_order(
            distance,
            n,
            p,
            q,
        ) by {
            if taken(n, q) {
                if q < at {
                    assert(in_order(distance, w, p, q));
                } else if q == at {
                    assert(w.lengths[p] <= d);
                    assert(taken(w, p));
                    assert(nearer(distance, w.stars[p] as int, j));
                } else {
                    assert(taken(w, q - 1));
                    assert(distance[w.stars[q - 1] as int] == w.lengths[q - 1]);
                    if p < at {
                        assert(in_order(distance, w, p, q - 1));
                    } else if p == at {
                        if at < q - 1 {
                            assert(in_order(distance, w, at, q - 1));
                            assert(distance[w.stars[at] as int] == w.lengths[at]);
                        }
                        assert(d < distance[w.stars[q - 1] as int]);
                        assert(n.stars[q] == w.stars[q - 1]);
                        assert(n.stars[p] == j as usize);
                    } else {
                        assert(in_order(distance, w, p - 1, q - 1));
                    }
                }
            }
        }
        assert forall|i: int| 0 <= i < j + 1 && #[trigger] usable(distance, anchor, i) implies in_window(
            n,
            i,
        ) || beyond(distance, n, i) by {
            if i == j {
                assert(taken(n, at) && n.stars[at] == j);
            } else {
                let last = size - 1;
                if in_window(w, i) {
                    let p = choose|p: int| 0 <= p < w.stars.len() && taken(w, p) && #[trigger] w.stars[p] == i;
                    if p < at {
                        assert(taken(n, p) && n.stars[p] == i);
                    } else if p < last {
                        assert(taken(n, p + 1) && n.stars[p + 1] == i);
                    } else {
                        assert(taken(w, last));
                        if at == last {
                            assert(taken(n, last));
                        } else {
                            assert(in_order(distance, w, last - 1, last));
                            assert(taken(n, last));
                            assert(n.stars[last] == w.stars[last - 1]);
                        }
                    }
                } else {
                    assert(beyond(distance, w, i));
                    assert(taken(w, last));
                    if at == last {
                        assert(taken(n, last));
                    } else {
                        assert(in_order(distance, w, last - 1, last));
                        assert(taken(n, last));
                        assert(n.stars[last] == w.stars[last - 1]);
                    }
                }
            }
        }
        assert forall|p: int| 0 <= p < size implies (#[trigger] taken(n, p) <==> p < count + 1) by {
            if p < at {
                assert(taken(w, p));
            } else if p > at {
                assert(taken(w, p - 1) == taken(n, p));
            }
        }
    } else {
        assert(n == w);
        if usable(distance, anchor, j) {
            assert forall|p: int| 0 <= p < size implies #[trigger] taken(w, p) by {}
            if size > 0 {
                assert(taken(w, size - 1));
            }
            assert(beyond(distance, w, j));
        }
    }
}

/// The window holds the closest stars at every point of the scan.
pub proof fn lemma_scan_holds(distance: Seq<u64>, anchor: int, size: int, upto: int)
    requires
        0 <= size,
        0 <= upto <= distance.len(),
        distance.len() <= usize::MAX,
    ensures
        holds_closest(distance, anchor, size, upto, scan(distance, anchor, size, upto)),
    decreases upto,
{
    if upto > 0 {
        lemma_scan_holds(distance, anchor, size, upto - 1);
        let before = scan(distance, anchor, size, upto - 1);
        if upto - 1 != anchor {
            lemma_place_holds(distance, anchor, size, upto - 1, before);
        } else {
            assert(!usable(distance, anchor, upto - 1));
        }
    } else {
        let w = empty_window(size);
        assert forall|p: int| 0 <= p < size implies !#[trigger] taken(w, p) by {}
    }
}

/// The list of `closest` holds `edges` stars of the list.
pub proof fn lemma_closest_in_range(distance: Seq<u64>, anchor: int, edges: int)
    requires
        0 <= anchor < distance.len() <= usize::MAX,
        0 <= edges,
    ensures
        closest(distance, anchor, edges).len() == edges,
        forall|p: int|
            0 <= p < edges ==> #[trigger] closest(distance, anchor, edges)[p] < distance.len(),
{
    let w = scan(distance, anchor, edges, distance.len() as int);
    let v = closest(distance, anchor, edges);
    lemma_scan_holds(distance, anchor, edges, distance.len() as int);
    assert forall|p: int| 0 <= p < edges implies #[trigger] v[p] < distance.len() by {
        if p >= 1 {
            assert(v[p] == w.stars[p - 1]);
            if taken(w, p - 1) {
                assert(usable(distance, anchor, w.stars[p - 1] as int));
            } else {
                assert(w.stars[p - 1] == 0);
            }
        } else {
            assert(v[0] == anchor as usize);
        }
    }
}

/// What `closest` holds, place by place. After the anchor, a place holds a
/// usable star with its length, or star 0 and `LENGTH_MAX` where no star
/// took it. The places that hold a star come first, the closer star before
/// the farther, and of two stars at the same length the earlier of the list
/// first. A usable star that is in no place is farther than the star of
/// the last place, so the places hold the closest stars; and where a place
/// is left, every usable star is in one.
pub proof fn lemma_closest_window(distance: Seq<u64>, anchor: int, edges: int)
    requires
        0 <= anchor < distance.len() <= usize::MAX,
        1 <= edges,
    ensures
        ({
            let stars = closest(distance, anchor, edges);
            let lengths = closest_lengths(distance, anchor, edges);
            &&& stars.len() == edges
            &&& lengths.len() == edges
            &&& stars[0] == anchor
            &&& lengths[0] == 0
            &&& forall|p: int|
                1 <= p < edges ==> if #[trigger] lengths[p] < LENGTH_MAX {
                    usable(distance, anchor, stars[p] as int) && distance[stars[p] as int]
                        == lengths[p]
                } else {
                    lengths[p] == LENGTH_MAX && stars[p] == 0
                }
            &&& forall|p: int, q: int|
                1 <= p < q < edges && #[trigger] lengths[q] < LENGTH_MAX ==> #[trigger] lengths[p]
                    < LENGTH_MAX && nearer(distance, stars[p] as int, stars[q] as int)
            &&& forall|j: int|
                #[trigger] usable(distance, anchor, j) ==> edges == 1 || (exists|p: int|
                    1 <= p < edges && lengths[p] < LENGTH_MAX && #[trigger] stars[p] == j) || (
                lengths[edges - 1] < LENGTH_MAX && nearer(distance, stars[edges - 1] as int, j))
        }),
{
    let w = scan(distance, anchor, edges, distance.len() as int);
    let stars = closest(distance, anchor, edges);
    let lengths = closest_lengths(distance, anchor, edges);
    lemma_scan_holds(distance, anchor, edges, distance.len() as int);
    assert forall|p: int| 1 <= p < edges implies #[trigger] lengths[p] == w.lengths[p - 1]
        && stars[p] == w.stars[p - 1] && (lengths[p] < LENGTH_MAX <==> taken(w, p - 1)) by {}
    assert forall|p: int| 1 <= p < edges implies if #[trigger] lengths[p] < LENGTH_MAX {
        usable(distance, anchor, stars[p] as int) && distance[stars[p] as int] == lengths[p]
    } else {
        lengths[p] == LENGTH_MAX && stars[p] == 0
    } by {
        assert(lengths[p] == w.lengths[p - 1]);
        if taken(w, p - 1) {
            assert(usable(distance, anchor, w.stars[p - 1] as int));
        } else {
            assert(w.stars[p - 1] == 0);
        }
    }
    assert forall|p: int, q: int|
        1 <= p < q < edges && #[trigger] lengths[q] < LENGTH_MAX implies #[trigger] lengths[p]
            < LENGTH_MAX && nearer(distance, stars[p] as int, stars[q] as int) by {
        assert(lengths[q] == w.lengths[q - 1]);
        assert(lengths[p] == w.lengths[p - 1]);
        assert(taken(w, q - 1));
        assert(in_order(distance, w, p - 1, q - 1));
    }
    assert forall|j: int| #[trigger] usable(distance, anchor, j) implies edges == 1 || (exists|
        p: int,
    |
        1 <= p < edges && lengths[p] < LENGTH_MAX && #[trigger] stars[p] == j) || (lengths[edges
        - 1] < LENGTH_MAX && nearer(distance, stars[edges - 1] as int, j)) by {
        if edges >= 2 {
            let last = edges - 1;
            assert(lengths[last] == w.lengths[last - 1]);
            assert(stars[last] == w.stars[last - 1]);
            if in_window(w, j) {
                let p = choose|p: int| 0 <= p < w.stars.len() && taken(w, p) && #[trigger] w.stars[p] == j;
                if p < last {
                    assert(lengths[p + 1] == w.lengths[p]);
                    assert(stars[p + 1] == j as usize);
                } else {
                    assert(in_order(distance, w, last - 1, last));
                }
            } else {
                assert(beyond(distance, w, j));
                assert(in_order(distance, w, last - 1, last));
            }
        }
    }
}

/// Where every other star is at a usable length, all of them count.
pub proof fn lemma_all_usable(distance: Seq<u64>, anchor: int, upto: int)
    requires
        0 <= upto <= distance.len(),
        others_usable(distance, anchor),
    ensures
        usable_count(distance, anchor, upto) == if 0 <= anchor < upto {
            upto - 1
        } else {
            upto
        },
    decreases upto,
{
    if upto > 0 {
        lemma_all_usable(distance, anchor, upto - 1);
    }
}

/// The vertices of a polygon are its anchor and the closest stars. Where
/// the list has at least `edges` stars and every other star than the anchor
/// is at a usable length, the list of `closest` holds `edges` stars, the
/// anchor first and each star once; the others stand closest first, the
/// earlier star before the later at equal length; and every star that is
/// not in the list is farther than its last star.
pub proof fn lemma_closest_stars(distance: Seq<u64>, anchor: int, edges: int)
    requires
        0 <= anchor < distance.len() <= usize::MAX,
        1 <= edges <= distance.len(),
        others_usable(distance, anchor),
    ensures
        closest(distance, anchor, edges).len() == edges,
        closest(distance, anchor, edges)[0] == anchor,
        all_differ(closest(distance, anchor, edges)),
        closest_first(distance, closest(distance, anchor, edges)),
        none_closer(distance, anchor, closest(distance, anchor, edges)),
{
    let w = scan(distance, anchor, edges, distance.len() as int);
    let v = closest(distance, anchor, edges);
    lemma_scan_holds(distance, anchor, edges, distance.len() as int);
    lemma_all_usable(distance, anchor, distance.len() as int);
    assert(v.len() == edges);
    assert(v[0] == anchor);
    assert forall|p: int| 1 <= p < edges implies #[trigger] v[p] == w.stars[p - 1] && taken(
        w,
        p - 1,
    ) by {}
    assert forall|p: int, q: int| 1 <= p < q < v.len() implies nearer(
        distance,
        #[trigger] v[p] as int,
        #[trigger] v[q] as int,
    ) by {
        assert(taken(w, q - 1));
        assert(in_order(distance, w, p - 1, q - 1));
    }
    assert forall|p: int, q: int| 0 <= p < q < v.len() implies #[trigger] v[p] != #[trigger] v[q] by {
        assert(taken(w, q - 1));
        if p >= 1 {
            assert(in_order(distance, w, p - 1, q - 1));
        }
    }
    assert forall|j: int| 0 <= j < distance.len() && j != anchor implies v.len() == 1 || v.contains(
        j as usize,
    ) || #[trigger] nearer(distance, v[v.len() - 1] as int, j) by {
        assert(usable(distance, anchor, j));
        if edges >= 2 {
            let last = edges - 1;
            assert(taken(w, last - 1));
            assert(v[last] == w.stars[last - 1]);
            if in_window(w, j) {
                let p = choose|p: int| 0 <= p < w.stars.len() && taken(w, p) && #[trigger] w.stars[p] == j;
                if p < last {
                    assert(v[p + 1] == j as usize);
                } else {
                    assert(in_order(distance, w, last - 1, last));
                }
            } else {
                assert(beyond(distance, w, j));
                assert(in_order(distance, w, last - 1, last));
            }
        }
    }
}

} // verus!
