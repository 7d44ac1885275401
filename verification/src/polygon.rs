//! Polygons of closest stars.

use vstd::prelude::*;
use vstd::relations::{sorted_by, total_ordering};
use vstd::seq_lib::lemma_sorted_unique;
use crate::closest::{
    all_differ, closest, closest_first, closest_stars, lemma_closest_in_range,
    lemma_closest_stars, none_closer, others_usable,
};
use crate::number::{equal_numbers, same_number, LENGTH_MAX};

verus! {

/// What the search reads of a star: its place in the list it came from, its
/// catalogue reference, and the length from it to every star of the list,
/// itself included, in the order of the list.
#[derive(Clone, Debug)]
pub struct Star {
    pub id: u64,
    pub db_id: u64,
    pub distance: Vec<u64>,
}

/// The centre of a polygon: the mean of the coordinates of its stars.
#[derive(Clone, Copy, Debug)]
pub struct Center {
    pub ra_rad: u64,
    pub dec_rad: u64,
}

/// A star with its closest stars, and the lengths of the connections
/// between them all, in ascending order. `find_polygons` gives the lengths
/// as they are in the list of stars; polygons are compared once each length
/// is divided by the longest, so that the last length is one.
#[derive(Clone, Debug)]
pub struct Polygon {
    pub star_index: usize,
    pub star_list: Vec<usize>,
    pub length_list: Vec<u64>,
    pub center_ra_rad: u64,
    pub center_dec_rad: u64,
}

/// A polygon as a value.
pub struct PolygonView {
    pub star_index: usize,
    pub star_list: Seq<usize>,
    pub length_list: Seq<u64>,
    pub center_ra_rad: u64,
    pub center_dec_rad: u64,
}

impl View for Polygon {
    type V = PolygonView;

    open spec fn view(&self) -> PolygonView {
        PolygonView {
            star_index: self.star_index,
            star_list: self.star_list@,
            length_list: self.length_list@,
            center_ra_rad: self.center_ra_rad,
            center_dec_rad: self.center_dec_rad,
        }
    }
}

impl PolygonView {
    /// The polygon has `edges` stars, its own star first, and a length for
    /// each connection between two of them, in ascending order.
    pub open spec fn well_formed(self, edges: int) -> bool {
        &&& self.star_list.len() == edges
        &&& self.star_list[0] == self.star_index
        &&& self.length_list.len() == connections(edges)
        &&& forall|p: int, q: int|
            0 <= p < q < self.length_list.len() ==> #[trigger] self.length_list[p]
                <= #[trigger] self.length_list[q]
    }
}

/// The polygons of a list as values.
pub open spec fn views(polygons: Seq<Polygon>) -> Seq<PolygonView> {
    polygons.map_values(|p: Polygon| p@)
}

/// Number of stars of a polygon in the usual configuration.
pub const POLYGON_EDGES: usize = 4;

/// The number of pairs among `polygon` vertices.
pub open spec fn connections(polygon: int) -> int {
    polygon * (polygon - 1) / 2
}

/// Calculate the number of vertex connections of a polygon.
pub fn polygon_connections(polygon: usize) -> (sides: usize)
    requires
        connections(polygon as int) <= usize::MAX,
    ensures
        sides == connections(polygon as int),
{
    let mut sides: usize = 0;
    let mut i: usize = 1;
    while i < polygon
        invariant
            1 <= i,
            i <= polygon || (polygon == 0 && i == 1),
            2 * sides == (i - 1) * (2 * polygon - i),
            connections(polygon as int) <= usize::MAX,
        decreases polygon - i,
    {
        proof {
            let k = polygon as int;
            let j = i as int;
            assert(j * (2 * k - j - 1) <= k * (k - 1)) by (nonlinear_arith)
                requires
                    1 <= j < k,
            ;
            assert(j * (2 * k - j - 1) == (j - 1) * (2 * k - j) + 2 * (k - j))
                by (nonlinear_arith);
        }
        sides = sides + (polygon - i);
        i += 1;
    }
    proof {
        let k = polygon as int;
        if polygon == 0 {
            assert(k * (k - 1) == 0) by (nonlinear_arith)
                requires
                    k == 0,
            ;
        } else {
            assert((k - 1) * (2 * k - k) == k * (k - 1)) by (nonlinear_arith);
        }
    }
    sides
}

/// Every star of the list knows its length to every star of the list.
pub open spec fn well_formed(star_list: Seq<Star>) -> bool {
    forall|i: int| 0 <= i < star_list.len() ==> (#[trigger] star_list[i]).distance.len() == star_list.len()
}

/// Whether every star of the list knows its length to every star of it.
pub fn is_well_formed(star_list: &Vec<Star>) -> (well: bool)
    ensures
        well == well_formed(star_list@),
{
    let mut i: usize = 0;
    while i < star_list.len()
        invariant
            i <= star_list.len(),
            forall|h: int| 0 <= h < i ==> (#[trigger] star_list[h]).distance.len() == star_list.len(),
        decreases star_list.len() - i,
    {
        if star_list[i].distance.len() != star_list.len() {
            return false;
        }
        i += 1;
    }
    true
}

/// The lengths from the vertex at place `i` to the vertices after it.
pub open spec fn edges_from(star_list: Seq<Star>, vertices: Seq<usize>, i: int) -> Seq<u64> {
    Seq::new(
        (vertices.len() - 1 - i) as nat,
        |t: int| star_list[vertices[i] as int].distance[vertices[i + 1 + t] as int],
    )
}

/// The lengths from each of the first `i` vertices to the vertices after
/// it, vertex by vertex.
pub open spec fn edges_before(star_list: Seq<Star>, vertices: Seq<usize>, i: int) -> Seq<u64>
    decreases i,
{
    if i <= 0 {
        Seq::empty()
    } else {
        edges_before(star_list, vertices, i - 1) + edges_from(star_list, vertices, i - 1)
    }
}

/// The length of every connection between two of the vertices: from the
/// first vertex to each later one, then from the second, and so on.
pub open spec fn edge_lengths(star_list: Seq<Star>, vertices: Seq<usize>) -> Seq<u64> {
    edges_before(star_list, vertices, vertices.len() - 1)
}

/// The lengths in ascending order.
pub open spec fn ascending(lengths: Seq<u64>) -> Seq<u64> {
    lengths.sort_by(|a: u64, b: u64| a <= b)
}

/// There are as many connections as `polygon_connections` says.
pub proof fn lemma_edge_count(star_list: Seq<Star>, vertices: Seq<usize>, i: int)
    requires
        0 <= i < vertices.len(),
    ensures
        2 * edges_before(star_list, vertices, i).len() == i * (2 * vertices.len() - i - 1),
        i == vertices.len() - 1 ==> edge_lengths(star_list, vertices).len() == connections(
            vertices.len() as int,
        ),
    decreases i,
{
    let k = vertices.len() as int;
    if i > 0 {
        lemma_edge_count(star_list, vertices, i - 1);
        assert(i * (2 * k - i - 1) == (i - 1) * (2 * k - i) + 2 * (k - i)) by (nonlinear_arith);
    } else {
        assert(i * (2 * k - i - 1) == 0) by (nonlinear_arith)
            requires
                i == 0,
        ;
    }
    if i == k - 1 {
        assert(i * (2 * k - i - 1) == k * (k - 1)) by (nonlinear_arith)
            requires
                i == k - 1,
        ;
    }
}

/// The length of every connection between two of the stars in `star_vec`.
pub fn polygon_lengths(star_list: &Vec<Star>, star_vec: &Vec<usize>) -> (length_vec: Vec<u64>)
    requires
        well_formed(star_list@),
        forall|p: int| 0 <= p < star_vec.len() ==> star_vec[p] < star_list.len(),
    ensures
        length_vec@ == edge_lengths(star_list@, star_vec@),
{
    let mut length_vec: Vec<u64> = Vec::new();
    let mut i: usize = 0;
    while i + 1 < star_vec.len()
        invariant
            i + 1 <= star_vec.len() || star_vec.len() == 0,
            i == 0 || i + 1 <= star_vec.len(),
            well_formed(star_list@),
            forall|p: int| 0 <= p < star_vec.len() ==> star_vec[p] < star_list.len(),
            length_vec@ == edges_before(star_list@, star_vec@, i as int),
        decreases star_vec.len() - i,
    {
        let star_a = &star_list[star_vec[i]];
        let mut n: usize = i + 1;
        while n < star_vec.len()
            invariant
                i + 1 <= n <= star_vec.len(),
                well_formed(star_list@),
                forall|p: int| 0 <= p < star_vec.len() ==> star_vec[p] < star_list.len(),
                *star_a == star_list[star_vec[i as int] as int],
                length_vec@ == edges_before(star_list@, star_vec@, i as int) + edges_from(
                    star_list@,
                    star_vec@,
                    i as int,
                ).take(n - i - 1),
            decreases star_vec.len() - n,
        {
            let length = star_a.distance[star_vec[n]];
            length_vec.push(length);
            n += 1;
            assert(edges_from(star_list@, star_vec@, i as int).take(n - i - 1) =~= edges_from(
                star_list@,
                star_vec@,
                i as int,
            ).take(n - i - 2).push(length));
        }
        assert(edges_from(star_list@, star_vec@, i as int).take(n - i - 1) =~= edges_from(
            star_list@,
            star_vec@,
            i as int,
        ));
        i += 1;
    }
    length_vec
}

/// Puts the lengths in ascending order with `sort` of the standard library:
/// what comes back is in ascending order and holds the lengths that went in,
/// each as often as before.
#[verifier::external_body]
fn sort_lengths(length_vec: &mut Vec<u64>)
    ensures
        sorted_by(final(length_vec)@, |a: u64, b: u64| a <= b),
        final(length_vec)@.to_multiset() == old(length_vec)@.to_multiset(),
{
    length_vec.sort();
}

/// The lengths in ascending order: the same lengths, each as often as
/// before, none before a smaller one.
pub fn sorted_lengths(length_vec: Vec<u64>) -> (sorted: Vec<u64>)
    ensures
        sorted@ == ascending(length_vec@),
        sorted@.to_multiset() == length_vec@.to_multiset(),
        sorted.len() == length_vec.len(),
        forall|p: int, q: int| 0 <= p < q < sorted.len() ==> sorted[p] <= sorted[q],
{
    broadcast use vstd::seq_lib::to_multiset_len;

    let mut sorted = length_vec;
    sort_lengths(&mut sorted);
    proof {
        let leq = |a: u64, b: u64| a <= b;
        assert(total_ordering(leq));
        length_vec@.lemma_sort_by_ensures(leq);
        lemma_sorted_unique(sorted@, ascending(length_vec@), leq);
        assert(sorted@.to_multiset().len() == length_vec@.to_multiset().len());
        assert forall|p: int, q: int| 0 <= p < q < sorted.len() implies sorted[p] <= sorted[q] by {
            assert(leq(sorted@[p], sorted@[q]));
        }
    }
    sorted
}

/// The polygon of the star at place `i`: its closest stars, the lengths
/// between them in ascending order, and the centre that the caller gave
/// for it.
pub open spec fn polygon_of(
    star_list: Seq<Star>,
    centers: Seq<Center>,
    edges: int,
    i: int,
) -> PolygonView {
    let vertices = closest(star_list[i].distance@, i, edges);
    PolygonView {
        star_index: i as usize,
        star_list: vertices,
        length_list: ascending(edge_lengths(star_list, vertices)),
        center_ra_rad: centers[i].ra_rad,
        center_dec_rad: centers[i].dec_rad,
    }
}

/// One of the polygons has its centre at `center`.
pub open spec fn known(polygons: Seq<PolygonView>, center: Center) -> bool {
    exists|h: int|
        0 <= h < polygons.len() && same_number(
            (#[trigger] polygons[h]).center_ra_rad,
            center.ra_rad,
        ) && same_number(polygons[h].center_dec_rad, center.dec_rad)
}

/// The polygons of the stars before `upto`, in the order of the list: a
/// star whose polygon has its centre where an earlier polygon of the
/// result has it adds nothing.
pub open spec fn polygons_before(
    star_list: Seq<Star>,
    centers: Seq<Center>,
    edges: int,
    upto: int,
) -> Seq<PolygonView>
    decreases upto,
{
    if upto <= 0 {
        Seq::empty()
    } else {
        let before = polygons_before(star_list, centers, edges, upto - 1);
        if known(before, centers[upto - 1]) {
            before
        } else {
            before.push(polygon_of(star_list, centers, edges, upto - 1))
        }
    }
}

/// What `find_polygons` finds: nothing where the list has fewer than
/// `edges` stars, else the polygons of all its stars.
pub open spec fn polygons_found(
    star_list: Seq<Star>,
    centers: Seq<Center>,
    edges: int,
) -> Option<Seq<PolygonView>> {
    if star_list.len() < edges {
        None
    } else {
        Some(polygons_before(star_list, centers, edges, star_list.len() as int))
    }
}

/// What was found, as a value.
pub open spec fn found_views(found: Option<Vec<Polygon>>) -> Option<Seq<PolygonView>> {
    match found {
        Some(polygons) => Some(views(polygons@)),
        None => None,
    }
}

/// Whether one of the polygons has its centre at `center`.
fn polygon_exists(polygons: &Vec<Polygon>, center: Center) -> (exists: bool)
    ensures
        exists == known(views(polygons@), center),
{
    let mut h: usize = 0;
    while h < polygons.len()
        invariant
            h <= polygons.len(),
            forall|g: int|
                0 <= g < h ==> !(same_number(
                    (#[trigger] views(polygons@)[g]).center_ra_rad,
                    center.ra_rad,
                ) && same_number(views(polygons@)[g].center_dec_rad, center.dec_rad)),
        decreases polygons.len() - h,
    {
        if equal_numbers(polygons[h].center_ra_rad, center.ra_rad) && equal_numbers(
            polygons[h].center_dec_rad,
            center.dec_rad,
        ) {
            assert(views(polygons@)[h as int] == polygons[h as int]@);
            return true;
        }
        assert(views(polygons@)[h as int] == polygons[h as int]@);
        h += 1;
    }
    false
}

/// Find polygons: for each star, the star and the `edges - 1` stars closest
/// to it, with the lengths of all connections between them in ascending
/// order. `centers` holds, for each star, the centre of the stars that
/// `closest_stars` gives for it. A star whose centre is that of a polygon
/// found before adds no polygon. With fewer than `edges` stars there is
/// nothing to find.
pub fn find_polygons(star_list: &Vec<Star>, centers: &Vec<Center>, edges: usize) -> (found: Option<
    Vec<Polygon>,
>)
    requires
        2 <= edges,
        centers.len() == star_list.len(),
        well_formed(star_list@),
    ensures
        found_views(found) == polygons_found(star_list@, centers@, edges as int),
        found is None <==> star_list.len() < edges,
        found is Some ==> found->0.len() <= star_list.len() && forall|h: int|
            0 <= h < found->0.len() ==> (#[trigger] found->0[h])@.well_formed(edges as int),
        found is Some && all_usable(star_list@) ==> forall|h: int|
            0 <= h < found->0.len() ==> all_differ((#[trigger] found->0[h]).star_list@),
{
    let mut polygons: Vec<Polygon> = Vec::new();
    if star_list.len() < edges {
        return None;
    }
    assert(views(polygons@) =~= Seq::<PolygonView>::empty());
    let mut id_a: usize = 0;
    while id_a < star_list.len()
        invariant
            id_a <= star_list.len(),
            centers.len() == star_list.len(),
            well_formed(star_list@),
            views(polygons@) == polygons_before(
                star_list@,
                centers@,
                edges as int,
                id_a as int,
            ),
        decreases star_list.len() - id_a,
    {
        let center = centers[id_a];
        if !polygon_exists(&polygons, center) {
            let star_vec = closest_stars(&star_list[id_a].distance, id_a, edges);
            let length_vec = sorted_lengths(polygon_lengths(star_list, &star_vec));
            let polygon = Polygon {
                star_index: id_a,
                star_list: star_vec,
                length_list: length_vec,
                center_ra_rad: center.ra_rad,
                center_dec_rad: center.dec_rad,
            };
            assert(polygon@ == polygon_of(star_list@, centers@, edges as int, id_a as int));
            let ghost before = polygons@;
            polygons.push(polygon);
            assert(views(polygons@) =~= views(before).push(polygon@));
        }
        id_a += 1;
    }
    proof {
        lemma_polygons_of_stars(star_list@, centers@, edges as int, star_list.len() as int);
        assert forall|h: int| 0 <= h < polygons.len() implies (#[trigger] polygons[h])@.well_formed(
            edges as int,
        ) by {
            assert(views(polygons@)[h] == polygons[h]@);
            lemma_polygon_shape(star_list@, centers@, edges as int, h);
        }
        if all_usable(star_list@) {
            assert forall|h: int| 0 <= h < polygons.len() implies all_differ(
                (#[trigger] polygons[h]).star_list@,
            ) by {
                assert(views(polygons@)[h] == polygons[h]@);
                lemma_polygon_stars_differ(star_list@, centers@, edges as int, h);
            }
        }
    }
    Some(polygons)
}

/// Every length from a star to another star can be taken into a polygon.
pub open spec fn all_usable(star_list: Seq<Star>) -> bool {
    forall|i: int| 0 <= i < star_list.len() ==> others_usable((#[trigger] star_list[i]).distance@, i)
}

/// Whether every length from a star to another star can be taken into a
/// polygon.
pub fn are_usable(star_list: &Vec<Star>) -> (usable: bool)
    ensures
        usable == all_usable(star_list@),
{
    let mut i: usize = 0;
    while i < star_list.len()
        invariant
            i <= star_list.len(),
            forall|h: int| 0 <= h < i ==> others_usable((#[trigger] star_list[h]).distance@, h),
        decreases star_list.len() - i,
    {
        let distance = &star_list[i].distance;
        let mut j: usize = 0;
        while j < distance.len()
            invariant
                i < star_list.len(),
                j <= distance.len(),
                *distance == star_list[i as int].distance,
                forall|g: int| 0 <= g < j && g != i ==> #[trigger] distance[g] < LENGTH_MAX,
            decreases distance.len() - j,
        {
            if j != i && distance[j] >= LENGTH_MAX {
                assert(!others_usable(star_list[i as int].distance@, i as int));
                return false;
            }
            j += 1;
        }
        i += 1;
    }
    true
}

/// The polygons that are found stand in the order of their stars, each
/// star has at most one, and each is the polygon of its star.
pub proof fn lemma_polygons_of_stars(
    star_list: Seq<Star>,
    centers: Seq<Center>,
    edges: int,
    upto: int,
)
    requires
        0 <= upto <= star_list.len() <= usize::MAX,
    ensures
        polygons_before(star_list, centers, edges, upto).len() <= upto,
        forall|h: int|
            0 <= h < polygons_before(star_list, centers, edges, upto).len() ==> {
                let polygon = #[trigger] polygons_before(star_list, centers, edges, upto)[h];
                &&& polygon.star_index < upto
                &&& polygon == polygon_of(star_list, centers, edges, polygon.star_index as int)
            },
        forall|g: int, h: int|
            0 <= g < h < polygons_before(star_list, centers, edges, upto).len() ==> (
            #[trigger] polygons_before(star_list, centers, edges, upto)[g]).star_index < (
            #[trigger] polygons_before(star_list, centers, edges, upto)[h]).star_index,
    decreases upto,
{
    if upto > 0 {
        lemma_polygons_of_stars(star_list, centers, edges, upto - 1);
    }
}

/// No two polygons that are found have their centre at the same place.
pub proof fn lemma_centers_differ(
    star_list: Seq<Star>,
    centers: Seq<Center>,
    edges: int,
    upto: int,
)
    requires
        0 <= upto <= star_list.len(),
    ensures
        forall|g: int, h: int|
            0 <= g < h < polygons_before(star_list, centers, edges, upto).len() ==> !(same_number(
                (#[trigger] polygons_before(star_list, centers, edges, upto)[g]).center_ra_rad,
                (#[trigger] polygons_before(star_list, centers, edges, upto)[h]).center_ra_rad,
            ) && same_number(
                polygons_before(star_list, centers, edges, upto)[g].center_dec_rad,
                polygons_before(star_list, centers, edges, upto)[h].center_dec_rad,
            )),
    decreases upto,
{
    if upto > 0 {
        lemma_centers_differ(star_list, centers, edges, upto - 1);
        let before = polygons_before(star_list, centers, edges, upto - 1);
        let now = polygons_before(star_list, centers, edges, upto);
        if !known(before, centers[upto - 1]) {
            assert forall|g: int, h: int| 0 <= g < h < now.len() implies !(same_number(
                (#[trigger] now[g]).center_ra_rad,
                (#[trigger] now[h]).center_ra_rad,
            ) && same_number(now[g].center_dec_rad, now[h].center_dec_rad)) by {
                assert(now[g] == before[g]);
                if h < before.len() {
                    assert(now[h] == before[h]);
                }
            }
        }
    }
}

/// One of the polygons is that of star `i`.
pub open spec fn has_polygon(polygons: Seq<PolygonView>, i: int) -> bool {
    exists|h: int| 0 <= h < polygons.len() && (#[trigger] polygons[h]).star_index == i
}

/// A star without a polygon has its centre where a polygon that was found
/// has it: nothing else is left out.
pub proof fn lemma_left_out(
    star_list: Seq<Star>,
    centers: Seq<Center>,
    edges: int,
    upto: int,
    i: int,
)
    requires
        0 <= i < upto <= star_list.len() <= usize::MAX,
    ensures
        has_polygon(polygons_before(star_list, centers, edges, upto), i) || known(
            polygons_before(star_list, centers, edges, upto),
            centers[i],
        ),
    decreases upto,
{
    let before = polygons_before(star_list, centers, edges, upto - 1);
    let now = polygons_before(star_list, centers, edges, upto);
    if i < upto - 1 {
        lemma_left_out(star_list, centers, edges, upto - 1, i);
        if has_polygon(before, i) {
            let h = choose|h: int| 0 <= h < before.len() && (#[trigger] before[h]).star_index == i;
            assert(now[h] == before[h]);
        } else {
            let h = choose|h: int|
                0 <= h < before.len() && same_number(
                    (#[trigger] before[h]).center_ra_rad,
                    centers[i].ra_rad,
                ) && same_number(before[h].center_dec_rad, centers[i].dec_rad);
            assert(now[h] == before[h]);
        }
    } else if !known(before, centers[i]) {
        assert(now[now.len() - 1].star_index == i);
    }
}

/// The polygon of a star is well formed, and its stars are stars of the
/// list.
pub proof fn lemma_polygon_of(star_list: Seq<Star>, centers: Seq<Center>, edges: int, i: int)
    requires
        well_formed(star_list),
        1 <= edges,
        0 <= i < star_list.len() <= usize::MAX,
    ensures
        polygon_of(star_list, centers, edges, i).well_formed(edges),
        polygon_of(star_list, centers, edges, i).star_index == i,
        forall|p: int|
            0 <= p < edges ==> #[trigger] polygon_of(star_list, centers, edges, i).star_list[p]
                < star_list.len(),
{
    broadcast use vstd::seq_lib::to_multiset_len;

    let polygon = polygon_of(star_list, centers, edges, i);
    let distance = star_list[i].distance@;
    let vertices = closest(distance, i, edges);
    let lengths = edge_lengths(star_list, vertices);
    let leq = |a: u64, b: u64| a <= b;
    assert(distance.len() == star_list.len());
    lemma_closest_in_range(distance, i, edges);
    lemma_edge_count(star_list, vertices, edges - 1);
    lengths.lemma_sort_by_ensures(leq);
    assert(ascending(lengths).to_multiset().len() == lengths.to_multiset().len());
    assert(polygon.star_list[0] == i as usize);
    assert forall|p: int, q: int| 0 <= p < q < polygon.length_list.len() implies #[trigger] polygon.length_list[p]
        <= #[trigger] polygon.length_list[q] by {
        assert(leq(polygon.length_list[p], polygon.length_list[q]));
    }
}

/// The shape of what is found. Each polygon holds `edges` stars of the
/// list, its own star first, and a length for each connection between two
/// of them, in ascending order.
pub proof fn lemma_polygon_shape(
    star_list: Seq<Star>,
    centers: Seq<Center>,
    edges: int,
    h: int,
)
    requires
        well_formed(star_list),
        1 <= edges,
        star_list.len() <= usize::MAX,
        0 <= h < polygons_before(star_list, centers, edges, star_list.len() as int).len(),
    ensures
        ({
            let polygon = polygons_before(star_list, centers, edges, star_list.len() as int)[h];
            &&& polygon.well_formed(edges)
            &&& forall|p: int| 0 <= p < edges ==> #[trigger] polygon.star_list[p] < star_list.len()
        }),
{
    let polygon = polygons_before(star_list, centers, edges, star_list.len() as int)[h];
    lemma_polygons_of_stars(star_list, centers, edges, star_list.len() as int);
    lemma_polygon_of(star_list, centers, edges, polygon.star_index as int);
}

/// No polygon holds a star twice, where the list has at least `edges`
/// stars and every length between two of them is usable. Its stars after
/// the first then stand closest first, and no star outside it is closer to
/// its first star than its last star is.
pub proof fn lemma_polygon_stars_differ(
    star_list: Seq<Star>,
    centers: Seq<Center>,
    edges: int,
    h: int,
)
    requires
        well_formed(star_list),
        all_usable(star_list),
        1 <= edges <= star_list.len() <= usize::MAX,
        0 <= h < polygons_before(star_list, centers, edges, star_list.len() as int).len(),
    ensures
        ({
            let polygon = polygons_before(star_list, centers, edges, star_list.len() as int)[h];
            let distance = star_list[polygon.star_index as int].distance@;
            &&& all_differ(polygon.star_list)
            &&& closest_first(distance, polygon.star_list)
            &&& none_closer(distance, polygon.star_index as int, polygon.star_list)
        }),
{
    let polygon = polygons_before(star_list, centers, edges, star_list.len() as int)[h];
    lemma_polygons_of_stars(star_list, centers, edges, star_list.len() as int);
    let i = polygon.star_index as int;
    let distance = star_list[i].distance@;
    assert(polygon == polygon_of(star_list, centers, edges, i));
    assert(distance.len() == star_list.len());
    assert(others_usable(star_list[i].distance@, i));
    lemma_closest_stars(distance, i, edges);
    assert(polygon.star_list == closest(distance, i, edges));
}

/// Searching twice in the same list finds the same: what `find_polygons`
/// returns is fixed by the stars, the centres and the number of edges.
pub proof fn lemma_find_polygons_again(
    star_list: Seq<Star>,
    centers: Seq<Center>,
    edges: int,
    first: Option<Vec<Polygon>>,
    second: Option<Vec<Polygon>>,
)
    requires
        found_views(first) == polygons_found(star_list, centers, edges),
        found_views(second) == polygons_found(star_list, centers, edges),
    ensures
        found_views(first) == found_views(second),
        first is None <==> second is None,
        first is Some ==> first->0.len() == second->0.len() && forall|h: int|
            0 <= h < first->0.len() ==> (#[trigger] first->0[h])@ == second->0[h]@,
{
    if first is Some {
        let a = first->0;
        let b = second->0;
        assert(views(a@) == views(b@));
        assert(views(a@).len() == a.len());
        assert(views(b@).len() == b.len());
        assert forall|h: int| 0 <= h < a.len() implies (#[trigger] a[h])@ == b[h]@ by {
            assert(views(a@)[h] == a[h]@);
            assert(views(b@)[h] == b[h]@);
        }
    }
}

} // verus!
