//! Comparison of the polygons of an image with those of a catalogue.
//!
//! Two polygons are similar where, connection by connection, the shorter
//! length is nearly the longer one. The caller divides; which length is
//! divided by which, and whether the ratios suffice, is decided here.

use vstd::prelude::*;
use crate::polygon::Polygon;

verus! {

/// The usual tolerance: the pattern of 0.99, which lets the shorter of two
/// lengths fall short of the longer by one part in a hundred.
pub const TOLERANCE: u64 = 0x3FEF_AE14_7AE1_47AE;

/// A pair of similar polygons: the place of each in its list, and the ratio
/// of each connection that was compared, followed by a zero for the longest
/// connection, which is not compared.
#[derive(Clone, Debug)]
pub struct Fit {
    pub image_polygon: usize,
    pub star_polygon: usize,
    pub difference: Vec<u64>,
}

/// A fit as a value.
pub struct FitView {
    pub image_polygon: usize,
    pub star_polygon: usize,
    pub difference: Seq<u64>,
}

impl View for Fit {
    type V = FitView;

    open spec fn view(&self) -> FitView {
        FitView {
            image_polygon: self.image_polygon,
            star_polygon: self.star_polygon,
            difference: self.difference@,
        }
    }
}

/// The fits of a list as values.
pub open spec fn fit_views(fits: Seq<Fit>) -> Seq<FitView> {
    fits.map_values(|f: Fit| f@)
}

/// The two lengths as the terms of their ratio: the shorter first, to be
/// divided by the longer.
pub open spec fn terms(a: u64, b: u64) -> (u64, u64) {
    if a > b {
        (b, a)
    } else {
        (a, b)
    }
}

/// The terms of the ratio of two lengths: the length to divide, then the
/// length to divide by, which is the longer of the two.
pub fn ratio_terms(a: u64, b: u64) -> (ratio: (u64, u64))
    ensures
        ratio == terms(a, b),
        ratio.0 <= ratio.1,
{
    if a > b {
        (b, a)
    } else {
        (a, b)
    }
}

/// A connection of length `a` in one polygon and `b` in the other fits
/// where the ratio of the two is at least the tolerance. Two lengths of
/// zero have no ratio and do not fit.
pub open spec fn edge_fits(a: u64, b: u64, ratio: u64, tolerance: u64) -> bool {
    terms(a, b).1 != 0 && ratio >= tolerance
}

/// Every connection but the last fits. `ratios` holds the ratio of each.
pub open spec fn similar(
    image_lengths: Seq<u64>,
    star_lengths: Seq<u64>,
    ratios: Seq<u64>,
    tolerance: u64,
) -> bool {
    forall|p: int|
        0 <= p < star_lengths.len() - 1 ==> edge_fits(
            image_lengths[p],
            star_lengths[p],
            #[trigger] ratios[p],
            tolerance,
        )
}

/// Whether a polygon of the image and one of the catalogue are similar.
/// `ratios` holds, for each connection but the last, the ratio of its
/// lengths in the two polygons.
pub fn is_similar(
    image_pol: &Polygon,
    star_pol: &Polygon,
    ratios: &Vec<u64>,
    tolerance: u64,
) -> (fit: bool)
    requires
        image_pol.length_list.len() == star_pol.length_list.len(),
        ratios.len() + 1 == star_pol.length_list.len(),
    ensures
        fit == similar(image_pol.length_list@, star_pol.length_list@, ratios@, tolerance),
{
    let mut i: usize = 0;
    while i < star_pol.length_list.len() - 1
        invariant
            i <= star_pol.length_list.len() - 1,
            image_pol.length_list.len() == star_pol.length_list.len(),
            ratios.len() + 1 == star_pol.length_list.len(),
            forall|p: int|
                0 <= p < i ==> edge_fits(
                    image_pol.length_list[p],
                    star_pol.length_list[p],
                    #[trigger] ratios[p],
                    tolerance,
                ),
        decreases star_pol.length_list.len() - i,
    {
        let a = image_pol.length_list[i];
        let b = star_pol.length_list[i];
        let (_, longer) = ratio_terms(a, b);
        let difference = ratios[i];
        if longer == 0 || difference < tolerance {
            return false;
        }
        i += 1;
    }
    true
}

/// Polygon `i` of the image and polygon `c` of the catalogue have as many
/// lengths, and there is a ratio for each connection but the last.
pub open spec fn pair_comparable(
    image_polygons: Seq<Polygon>,
    star_polygons: Seq<Polygon>,
    ratios: Seq<Vec<Vec<u64>>>,
    i: int,
    c: int,
) -> bool {
    &&& ratios[i][c].len() + 1 == star_polygons[c].length_list.len()
    &&& image_polygons[i].length_list.len() == star_polygons[c].length_list.len()
}

/// The lists can be compared: all polygons have as many lengths, and
/// `ratios` holds, for each polygon of the image and each of the catalogue,
/// a ratio for each connection but the last.
pub open spec fn comparable(
    image_polygons: Seq<Polygon>,
    star_polygons: Seq<Polygon>,
    ratios: Seq<Vec<Vec<u64>>>,
) -> bool {
    &&& ratios.len() == image_polygons.len()
    &&& forall|i: int|
        0 <= i < image_polygons.len() ==> (#[trigger] ratios[i]).len() == star_polygons.len()
    &&& forall|i: int, c: int|
        0 <= i < image_polygons.len() && 0 <= c < star_polygons.len() ==> #[trigger] pair_comparable(
            image_polygons,
            star_polygons,
            ratios,
            i,
            c,
        )
}

/// Whether the lists can be compared.
pub fn is_comparable(
    image_polygons: &Vec<Polygon>,
    star_polygons: &Vec<Polygon>,
    ratios: &Vec<Vec<Vec<u64>>>,
) -> (well: bool)
    ensures
        well == comparable(image_polygons@, star_polygons@, ratios@),
{
    if ratios.len() != image_polygons.len() {
        return false;
    }
    let mut i: usize = 0;
    while i < image_polygons.len()
        invariant
            i <= image_polygons.len(),
            ratios.len() == image_polygons.len(),
            forall|h: int| 0 <= h < i ==> (#[trigger] ratios[h]).len() == star_polygons.len(),
            forall|h: int, c: int|
                0 <= h < i && 0 <= c < star_polygons.len() ==> #[trigger] pair_comparable(
                    image_polygons@,
                    star_polygons@,
                    ratios@,
                    h,
                    c,
                ),
        decreases image_polygons.len() - i,
    {
        if ratios[i].len() != star_polygons.len() {
            return false;
        }
        let mut c: usize = 0;
        while c < star_polygons.len()
            invariant
                i < image_polygons.len(),
                c <= star_polygons.len(),
                ratios.len() == image_polygons.len(),
                ratios[i as int].len() == star_polygons.len(),
                forall|h: int, d: int|
                    0 <= h < i && 0 <= d < star_polygons.len() ==> #[trigger] pair_comparable(
                        image_polygons@,
                        star_polygons@,
                        ratios@,
                        h,
                        d,
                    ),
                forall|d: int|
                    0 <= d < c ==> #[trigger] pair_comparable(
                        image_polygons@,
                        star_polygons@,
                        ratios@,
                        i as int,
                        d,
                    ),
            decreases star_polygons.len() - c,
        {
            let edges: usize = star_polygons[c].length_list.len();
            if edges == 0 || ratios[i][c].len() != edges - 1
                || image_polygons[i].length_list.len() != edges {
                assert(!pair_comparable(
                    image_polygons@,
                    star_polygons@,
                    ratios@,
                    i as int,
                    c as int,
                ));
                return false;
            }
            c += 1;
        }
        i += 1;
    }
    true
}

/// The similar pairs among a polygon of the image and the polygons of the
/// catalogue before `upto`, in the order of the catalogue.
pub open spec fn fits_of(
    image_polygons: Seq<Polygon>,
    star_polygons: Seq<Polygon>,
    ratios: Seq<Vec<Vec<u64>>>,
    tolerance: u64,
    i: int,
    upto: int,
) -> Seq<FitView>
    decreases upto,
{
    if upto <= 0 {
        Seq::empty()
    } else {
        let before = fits_of(image_polygons, star_polygons, ratios, tolerance, i, upto - 1);
        let c = upto - 1;
        if similar(
            image_polygons[i].length_list@,
            star_polygons[c].length_list@,
            ratios[i][c]@,
            tolerance,
        ) {
            before.push(
                FitView {
                    image_polygon: i as usize,
                    star_polygon: c as usize,
                    difference: ratios[i][c]@.push(0),
                },
            )
        } else {
            before
        }
    }
}

/// The similar pairs among the polygons of the image before `upto` and all
/// polygons of the catalogue: those of the first polygon of the image, then
/// those of the second, and so on.
pub open spec fn fits_before(
    image_polygons: Seq<Polygon>,
    star_polygons: Seq<Polygon>,
    ratios: Seq<Vec<Vec<u64>>>,
    tolerance: u64,
    upto: int,
) -> Seq<FitView>
    decreases upto,
{
    if upto <= 0 {
        Seq::empty()
    } else {
        fits_before(image_polygons, star_polygons, ratios, tolerance, upto - 1) + fits_of(
            image_polygons,
            star_polygons,
            ratios,
            tolerance,
            upto - 1,
            star_polygons.len() as int,
        )
    }
}

/// The ratios that were compared, and a zero for the last connection.
fn differences(ratios: &Vec<u64>) -> (diff_list: Vec<u64>)
    ensures
        diff_list@ == ratios@.push(0),
{
    let mut diff_list: Vec<u64> = Vec::new();
    let mut i: usize = 0;
    while i < ratios.len()
        invariant
            i <= ratios.len(),
            diff_list@ == ratios@.take(i as int),
        decreases ratios.len() - i,
    {
        diff_list.push(ratios[i]);
        i += 1;
        assert(ratios@.take(i as int) =~= ratios@.take(i - 1).push(ratios[i - 1]));
    }
    assert(ratios@.take(i as int) =~= ratios@);
    diff_list.push(0);
    diff_list
}

/// Compare star database and image polygons: every pair of a polygon of
/// the image and a polygon of the catalogue that are similar, with its
/// ratios. A polygon may be in several pairs. `ratios[i][c]` holds, for
/// polygon `i` of the image and polygon `c` of the catalogue, the ratio of
/// each connection but the last: the terms that `ratio_terms` gives for the
/// two lengths, the first divided by the second.
pub fn find_fit(
    image_polygons: &Vec<Polygon>,
    star_polygons: &Vec<Polygon>,
    ratios: &Vec<Vec<Vec<u64>>>,
    tolerance: u64,
) -> (fits: Vec<Fit>)
    requires
        comparable(image_polygons@, star_polygons@, ratios@),
    ensures
        fit_views(fits@) == fits_before(
            image_polygons@,
            star_polygons@,
            ratios@,
            tolerance,
            image_polygons.len() as int,
        ),
        forall|i: int, c: int|
            0 <= i < image_polygons.len() && 0 <= c < star_polygons.len() ==> (#[trigger] listed(
                fit_views(fits@),
                i,
                c,
            ) <==> similar_pair(image_polygons@, star_polygons@, ratios@, tolerance, i, c)),
{
    let mut fits: Vec<Fit> = Vec::new();
    assert(fit_views(fits@) =~= Seq::<FitView>::empty());
    let mut i: usize = 0;
    while i < image_polygons.len()
        invariant
            i <= image_polygons.len(),
            comparable(image_polygons@, star_polygons@, ratios@),
            fit_views(fits@) == fits_before(
                image_polygons@,
                star_polygons@,
                ratios@,
                tolerance,
                i as int,
            ),
        decreases image_polygons.len() - i,
    {
        let mut c: usize = 0;
        assert(ratios[i as int].len() == star_polygons.len());
        while c < star_polygons.len()
            invariant
                i < image_polygons.len(),
                c <= star_polygons.len(),
                comparable(image_polygons@, star_polygons@, ratios@),
                ratios[i as int].len() == star_polygons.len(),
                fit_views(fits@) == fits_before(
                    image_polygons@,
                    star_polygons@,
                    ratios@,
                    tolerance,
                    i as int,
                ) + fits_of(
                    image_polygons@,
                    star_polygons@,
                    ratios@,
                    tolerance,
                    i as int,
                    c as int,
                ),
            decreases star_polygons.len() - c,
        {
            assert(pair_comparable(image_polygons@, star_polygons@, ratios@, i as int, c as int));
            if is_similar(&image_polygons[i], &star_polygons[c], &ratios[i][c], tolerance) {
                let fit = Fit {
                    image_polygon: i,
                    star_polygon: c,
                    difference: differences(&ratios[i][c]),
                };
                let ghost before = fits@;
                fits.push(fit);
                assert(fit_views(fits@) =~= fit_views(before).push(fit@));
            }
            c += 1;
        }
        i += 1;
    }
    proof {
        let all = fit_views(fits@);
        assert(star_polygons@.len() == star_polygons.len());
        lemma_fits_are_similar_pairs(
            image_polygons@,
            star_polygons@,
            ratios@,
            tolerance,
            image_polygons.len() as int,
        );
        assert forall|i: int, c: int|
            0 <= i < image_polygons.len() && 0 <= c < star_polygons.len() implies (#[trigger] listed(
                all,
                i,
                c,
            ) <==> similar_pair(image_polygons@, star_polygons@, ratios@, tolerance, i, c)) by {
            if listed(all, i, c) {
                let f = choose|f: int|
                    0 <= f < all.len() && (#[trigger] all[f]).image_polygon == i
                        && all[f].star_polygon == c;
                assert(similar_pair(
                    image_polygons@,
                    star_polygons@,
                    ratios@,
                    tolerance,
                    all[f].image_polygon as int,
                    all[f].star_polygon as int,
                ));
            }
        }
    }
    fits
}

/// Exchanging the two polygons changes nothing: the terms of each ratio
/// are the same two lengths in the same order, so the ratios are the same,
/// and with them the polygons are similar one way if and only if they are
/// the other way.
pub proof fn lemma_similar_symmetric(
    first: Seq<u64>,
    second: Seq<u64>,
    ratios: Seq<u64>,
    tolerance: u64,
)
    requires
        first.len() == second.len(),
    ensures
        forall|a: u64, b: u64| #[trigger] terms(a, b) == terms(b, a),
        similar(first, second, ratios, tolerance) == similar(second, first, ratios, tolerance),
{
    assert forall|a: u64, b: u64| #[trigger] terms(a, b) == terms(b, a) by {}
    if similar(first, second, ratios, tolerance) {
        assert forall|p: int| 0 <= p < first.len() - 1 implies edge_fits(
            second[p],
            first[p],
            #[trigger] ratios[p],
            tolerance,
        ) by {
            assert(edge_fits(first[p], second[p], ratios[p], tolerance));
            assert(terms(first[p], second[p]) == terms(second[p], first[p]));
        }
    }
    if similar(second, first, ratios, tolerance) {
        assert forall|p: int| 0 <= p < second.len() - 1 implies edge_fits(
            first[p],
            second[p],
            #[trigger] ratios[p],
            tolerance,
        ) by {
            assert(edge_fits(second[p], first[p], ratios[p], tolerance));
            assert(terms(first[p], second[p]) == terms(second[p], first[p]));
        }
    }
}

/// At the tolerance a connection fits: only a ratio below the tolerance is
/// refused. Two lengths of zero never fit.
pub proof fn lemma_tolerance_boundary(a: u64, b: u64, ratio: u64, tolerance: u64)
    ensures
        a != 0 || b != 0 ==> edge_fits(a, b, tolerance, tolerance),
        a != 0 || b != 0 ==> (edge_fits(a, b, ratio, tolerance) <==> ratio >= tolerance),
        ratio < tolerance ==> !edge_fits(a, b, ratio, tolerance),
        !edge_fits(0, 0, ratio, tolerance),
{
}

/// One of the fits is the pair of polygon `i` of the image and polygon `c`
/// of the catalogue.
pub open spec fn listed(fits: Seq<FitView>, i: int, c: int) -> bool {
    exists|f: int|
        0 <= f < fits.len() && (#[trigger] fits[f]).image_polygon == i && fits[f].star_polygon == c
}

/// Polygon `i` of the image and polygon `c` of the catalogue are similar.
pub open spec fn similar_pair(
    image_polygons: Seq<Polygon>,
    star_polygons: Seq<Polygon>,
    ratios: Seq<Vec<Vec<u64>>>,
    tolerance: u64,
    i: int,
    c: int,
) -> bool {
    similar(
        image_polygons[i].length_list@,
        star_polygons[c].length_list@,
        ratios[i][c]@,
        tolerance,
    )
}

/// The fits of one polygon of the image are its similar pairs, each once.
proof fn lemma_fits_of(
    image_polygons: Seq<Polygon>,
    star_polygons: Seq<Polygon>,
    ratios: Seq<Vec<Vec<u64>>>,
    tolerance: u64,
    i: int,
    upto: int,
)
    requires
        0 <= i <= usize::MAX,
        0 <= upto <= usize::MAX,
    ensures
        forall|f: int|
            0 <= f < fits_of(image_polygons, star_polygons, ratios, tolerance, i, upto).len() ==> {
                let fit = #[trigger] fits_of(
                    image_polygons,
                    star_polygons,
                    ratios,
                    tolerance,
                    i,
                    upto,
                )[f];
                &&& fit.image_polygon == i
                &&& fit.star_polygon < upto
                &&& similar_pair(
                    image_polygons,
                    star_polygons,
                    ratios,
                    tolerance,
                    i,
                    fit.star_polygon as int,
                )
                &&& fit.difference == ratios[i][fit.star_polygon as int]@.push(0)
            },
        forall|c: int|
            0 <= c < upto && #[trigger] similar_pair(
                image_polygons,
                star_polygons,
                ratios,
                tolerance,
                i,
                c,
            ) ==> listed(
                fits_of(image_polygons, star_polygons, ratios, tolerance, i, upto),
                i,
                c,
            ),
    decreases upto,
{
    if upto > 0 {
        lemma_fits_of(image_polygons, star_polygons, ratios, tolerance, i, upto - 1);
        let before = fits_of(image_polygons, star_polygons, ratios, tolerance, i, upto - 1);
        let now = fits_of(image_polygons, star_polygons, ratios, tolerance, i, upto);
        assert forall|c: int|
            0 <= c < upto && #[trigger] similar_pair(
                image_polygons,
                star_polygons,
                ratios,
                tolerance,
                i,
                c,
            ) implies listed(now, i, c) by {
            if c < upto - 1 {
                assert(listed(before, i, c));
                let f = choose|f: int|
                    0 <= f < before.len() && (#[trigger] before[f]).image_polygon == i
                        && before[f].star_polygon == c;
                assert(now[f] == before[f]);
            } else {
                assert(now == before.push(now[now.len() - 1]));
                assert(now[now.len() - 1].star_polygon == c);
            }
        }
    }
}

/// The fits are the similar pairs: every fit is a pair of similar polygons
/// with its ratios, and every pair of similar polygons is among the fits,
/// however many pairs a polygon is in.
pub proof fn lemma_fits_are_similar_pairs(
    image_polygons: Seq<Polygon>,
    star_polygons: Seq<Polygon>,
    ratios: Seq<Vec<Vec<u64>>>,
    tolerance: u64,
    upto: int,
)
    requires
        0 <= upto <= usize::MAX,
        star_polygons.len() <= usize::MAX,
    ensures
        forall|f: int|
            0 <= f < fits_before(image_polygons, star_polygons, ratios, tolerance, upto).len() ==> {
                let fit = #[trigger] fits_before(
                    image_polygons,
                    star_polygons,
                    ratios,
                    tolerance,
                    upto,
                )[f];
                &&& fit.image_polygon < upto
                &&& fit.star_polygon < star_polygons.len()
                &&& similar_pair(
                    image_polygons,
                    star_polygons,
                    ratios,
                    tolerance,
                    fit.image_polygon as int,
                    fit.star_polygon as int,
                )
                &&& fit.difference == ratios[fit.image_polygon as int][fit.star_polygon as int]@.push(
                    0,
                )
            },
        forall|i: int, c: int|
            0 <= i < upto && 0 <= c < star_polygons.len() && #[trigger] similar_pair(
                image_polygons,
                star_polygons,
                ratios,
                tolerance,
                i,
                c,
            ) ==> listed(
                fits_before(image_polygons, star_polygons, ratios, tolerance, upto),
                i,
                c,
            ),
    decreases upto,
{
    if upto > 0 {
        let count = star_polygons.len() as int;
        lemma_fits_are_similar_pairs(image_polygons, star_polygons, ratios, tolerance, upto - 1);
        lemma_fits_of(image_polygons, star_polygons, ratios, tolerance, upto - 1, count);
        let before = fits_before(image_polygons, star_polygons, ratios, tolerance, upto - 1);
        let row = fits_of(image_polygons, star_polygons, ratios, tolerance, upto - 1, count);
        let now = fits_before(image_polygons, star_polygons, ratios, tolerance, upto);
        assert(now == before + row);
        assert forall|f: int| 0 <= f < now.len() implies {
            let fit = #[trigger] now[f];
            &&& fit.image_polygon < upto
            &&& fit.star_polygon < star_polygons.len()
            &&& similar_pair(
                image_polygons,
                star_polygons,
                ratios,
                tolerance,
                fit.image_polygon as int,
                fit.star_polygon as int,
            )
            &&& fit.difference == ratios[fit.image_polygon as int][fit.star_polygon as int]@.push(
                0,
            )
        } by {
            if f < before.len() {
                assert(now[f] == before[f]);
            } else {
                assert(now[f] == row[f - before.len()]);
            }
        }
        assert forall|i: int, c: int|
            0 <= i < upto && 0 <= c < star_polygons.len() && #[trigger] similar_pair(
                image_polygons,
                star_polygons,
                ratios,
                tolerance,
                i,
                c,
            ) implies listed(now, i, c) by {
            if i < upto - 1 {
                assert(listed(before, i, c));
                let f = choose|f: int|
                    0 <= f < before.len() && (#[trigger] before[f]).image_polygon == i
                        && before[f].star_polygon == c;
                assert(now[f] == before[f]);
            } else {
                assert(listed(row, i, c));
                let f = choose|f: int|
                    0 <= f < row.len() && (#[trigger] row[f]).image_polygon == i
                        && row[f].star_polygon == c;
                assert(now[before.len() + f] == row[f]);
            }
        }
    }
}

/// The fits do not depend on which list is taken for the image. With the
/// lists exchanged, and the ratios of each pair where the exchanged pair
/// has them, polygon `c` fits polygon `i` if and only if polygon `i` fitted
/// polygon `c`.
pub proof fn lemma_fit_symmetric(
    image_polygons: Seq<Polygon>,
    star_polygons: Seq<Polygon>,
    ratios: Seq<Vec<Vec<u64>>>,
    exchanged: Seq<Vec<Vec<u64>>>,
    tolerance: u64,
    i: int,
    c: int,
)
    requires
        image_polygons.len() <= usize::MAX,
        star_polygons.len() <= usize::MAX,
        comparable(image_polygons, star_polygons, ratios),
        0 <= i < image_polygons.len(),
        0 <= c < star_polygons.len(),
        exchanged[c][i]@ == ratios[i][c]@,
    ensures
        listed(
            fits_before(
                image_polygons,
                star_polygons,
                ratios,
                tolerance,
                image_polygons.len() as int,
            ),
            i,
            c,
        ) <==> listed(
            fits_before(
                star_polygons,
                image_polygons,
                exchanged,
                tolerance,
                star_polygons.len() as int,
            ),
            c,
            i,
        ),
{
    let forth = fits_before(
        image_polygons,
        star_polygons,
        ratios,
        tolerance,
        image_polygons.len() as int,
    );
    let back = fits_before(
        star_polygons,
        image_polygons,
        exchanged,
        tolerance,
        star_polygons.len() as int,
    );
    lemma_fits_are_similar_pairs(
        image_polygons,
        star_polygons,
        ratios,
        tolerance,
        image_polygons.len() as int,
    );
    lemma_fits_are_similar_pairs(
        star_polygons,
        image_polygons,
        exchanged,
        tolerance,
        star_polygons.len() as int,
    );
    assert(pair_comparable(image_polygons, star_polygons, ratios, i, c));
    lemma_similar_symmetric(
        image_polygons[i].length_list@,
        star_polygons[c].length_list@,
        ratios[i][c]@,
        tolerance,
    );
    let forth_similar = similar_pair(image_polygons, star_polygons, ratios, tolerance, i, c);
    let back_similar = similar_pair(star_polygons, image_polygons, exchanged, tolerance, c, i);
    assert(forth_similar == back_similar);
    if listed(forth, i, c) {
        let f = choose|f: int|
            0 <= f < forth.len() && (#[trigger] forth[f]).image_polygon == i
                && forth[f].star_polygon == c;
        assert(forth_similar);
    }
    if listed(back, c, i) {
        let f = choose|f: int|
            0 <= f < back.len() && (#[trigger] back[f]).image_polygon == c
                && back[f].star_polygon == i;
        assert(back_similar);
    }
}

} // verus!
