use star_polygon::closest::closest_stars;
use star_polygon::fit::{find_fit, is_comparable, is_similar, ratio_terms, Fit, TOLERANCE};
use star_polygon::polygon::{find_polygons, Center, Polygon, Star};

fn star_distance_rad(a: (f64, f64), b: (f64, f64)) -> f64 {
    (b.0 - a.0).abs().sqrt() + (b.1 - a.1).abs().sqrt()
}

fn build(points: &[(f64, f64)], edges: usize) -> Vec<Polygon> {
    let mut stars = Vec::new();
    for (i, a) in points.iter().enumerate() {
        let distance = points.iter().map(|b| star_distance_rad(*a, *b).to_bits()).collect();
        stars.push(Star { id: i as u64, db_id: 0, distance });
    }
    let mut centers = Vec::new();
    for i in 0..stars.len() {
        let mut ra = 0.0;
        let mut dec = 0.0;
        for star_id in closest_stars(&stars[i].distance, i, edges) {
            ra += points[star_id].0;
            dec += points[star_id].1;
        }
        centers.push(Center {
            ra_rad: (ra / edges as f64).to_bits(),
            dec_rad: (dec / edges as f64).to_bits(),
        });
    }
    let mut polygons = find_polygons(&stars, &centers, edges).unwrap_or_default();
    for polygon in polygons.iter_mut() {
        let longest = f64::from_bits(polygon.length_list[polygon.length_list.len() - 1]);
        for length in polygon.length_list.iter_mut() {
            *length = (f64::from_bits(*length) / longest).to_bits();
        }
    }
    polygons
}

fn polygon_with(lengths: &[f64]) -> Polygon {
    Polygon {
        star_index: 0,
        star_list: vec![0, 1, 2, 3],
        length_list: lengths.iter().map(|l| l.to_bits()).collect(),
        center_ra_rad: 0,
        center_dec_rad: 0,
    }
}

fn ratios_of_pair(image_pol: &Polygon, star_pol: &Polygon) -> Vec<u64> {
    let mut ratios = Vec::new();
    for p in 0..star_pol.length_list.len() - 1 {
        let (shorter, longer) = ratio_terms(image_pol.length_list[p], star_pol.length_list[p]);
        ratios.push((f64::from_bits(shorter) / f64::from_bits(longer)).to_bits());
    }
    ratios
}

fn ratios_of(image: &Vec<Polygon>, stars: &Vec<Polygon>) -> Vec<Vec<Vec<u64>>> {
    image
        .iter()
        .map(|i| stars.iter().map(|c| ratios_of_pair(i, c)).collect())
        .collect()
}

fn fit(image: &Vec<Polygon>, stars: &Vec<Polygon>, tolerance: f64) -> Vec<Fit> {
    let ratios = ratios_of(image, stars);
    assert!(is_comparable(image, stars, &ratios));
    find_fit(image, stars, &ratios, tolerance.to_bits())
}

fn pairs(fits: &Vec<Fit>) -> Vec<(usize, usize)> {
    fits.iter().map(|f| (f.image_polygon, f.star_polygon)).collect()
}

#[test]
fn ratio_terms_put_the_longer_last() {
    let one = 1.0_f64.to_bits();
    let half = 0.5_f64.to_bits();
    assert_eq!(ratio_terms(one, half), (half, one));
    assert_eq!(ratio_terms(half, one), (half, one));
    assert_eq!(ratio_terms(one, one), (one, one));
    assert_eq!(ratio_terms(0, 0), (0, 0));
    assert_eq!(ratio_terms(0, half), (0, half));
}

#[test]
fn the_usual_tolerance_is_ninety_nine_in_a_hundred() {
    assert_eq!(TOLERANCE, 0.99_f64.to_bits());
    assert_eq!(f64::from_bits(TOLERANCE), 0.99);
}

#[test]
fn a_polygon_fits_itself() {
    let a = vec![polygon_with(&[0.25, 0.5, 0.5, 0.75, 0.9, 1.0])];
    let fits = fit(&a, &a, 0.99);
    assert_eq!(pairs(&fits), vec![(0, 0)]);
    let one = 1.0_f64.to_bits();
    assert_eq!(fits[0].difference, vec![one, one, one, one, one, 0]);
}

#[test]
fn rescaled_stars_fit() {
    let small = vec![(0.3, 1.7), (2.9, 0.4), (1.1, 1.1), (4.6, 3.2), (0.9, 2.8), (3.3, 3.9)];
    let image = build(&small, 4);
    assert!(!image.is_empty());
    let tripled: Vec<(f64, f64)> = small.iter().map(|p| (p.0 * 3.0, p.1 * 3.0)).collect();
    assert!(!fit(&image, &build(&tripled, 4), 0.99).is_empty());
    // a factor of four scales every length by two, exactly
    let large: Vec<(f64, f64)> = small.iter().map(|p| (p.0 * 4.0, p.1 * 4.0)).collect();
    let stars = build(&large, 4);
    assert_eq!(stars.len(), image.len());
    let fits = fit(&image, &stars, 0.99);
    for i in 0..image.len() {
        assert_eq!(image[i].length_list, stars[i].length_list);
        assert!(pairs(&fits).contains(&(i, i)));
    }
}

#[test]
fn unrelated_stars_do_not_fit() {
    let image = vec![polygon_with(&[0.1, 0.2, 0.3, 0.5, 0.8, 1.0])];
    let stars = vec![polygon_with(&[0.1, 0.2, 0.5, 0.5, 0.8, 1.0])];
    assert!(fit(&image, &stars, 0.99).is_empty());
    let cloud_a = build(&[(0.0, 0.0), (1.0, 0.0), (0.0, 1.0), (1.0, 1.0)], 4);
    let cloud_b = build(&[(0.0, 0.0), (7.0, 0.5), (0.2, 3.0), (1.0, 9.0)], 4);
    assert!(fit(&cloud_a, &cloud_b, 0.99).is_empty());
}

#[test]
fn every_similar_pair_is_listed() {
    let image = vec![
        polygon_with(&[0.25, 0.5, 0.5, 0.75, 0.9, 1.0]),
        polygon_with(&[0.1, 0.1, 0.1, 0.1, 0.1, 1.0]),
    ];
    let stars = vec![
        polygon_with(&[0.25, 0.5, 0.5, 0.75, 0.9, 1.0]),
        polygon_with(&[0.7, 0.7, 0.7, 0.7, 0.7, 1.0]),
        polygon_with(&[0.25, 0.5, 0.5, 0.75, 0.9, 1.0]),
        polygon_with(&[0.2501, 0.5, 0.5001, 0.75, 0.9, 1.0]),
    ];
    let fits = fit(&image, &stars, 0.99);
    assert_eq!(pairs(&fits), vec![(0, 0), (0, 2), (0, 3)]);
    assert_eq!(fits[2].difference[0], (0.25_f64 / 0.2501).to_bits());
    assert_eq!(fits[2].difference[5], 0);
}

#[test]
fn fit_is_the_same_with_the_lists_exchanged() {
    let a = vec![
        polygon_with(&[0.25, 0.5, 0.5, 0.75, 0.9, 1.0]),
        polygon_with(&[0.3, 0.5, 0.5, 0.75, 0.9, 1.0]),
    ];
    let b = vec![
        polygon_with(&[0.2501, 0.5, 0.5001, 0.7499, 0.9, 1.0]),
        polygon_with(&[0.3001, 0.5, 0.5, 0.75, 0.9, 1.0]),
        polygon_with(&[0.9, 0.9, 0.9, 0.9, 0.9, 1.0]),
    ];
    let forth = pairs(&fit(&a, &b, 0.99));
    let back = pairs(&fit(&b, &a, 0.99));
    assert_eq!(forth, vec![(0, 0), (1, 1)]);
    assert_eq!(back, vec![(0, 0), (1, 1)]);
}

#[test]
fn a_ratio_at_the_tolerance_fits() {
    let image = polygon_with(&[0.5, 0.5, 0.5, 0.5, 0.5, 1.0]);
    let star = polygon_with(&[0.5, 0.5, 0.5, 0.5, 0.5, 1.0]);
    let tolerance = 0.99_f64.to_bits();
    let one = 1.0_f64.to_bits();
    assert!(is_similar(&image, &star, &vec![one, one, tolerance, one, one], tolerance));
    assert!(!is_similar(&image, &star, &vec![one, one, tolerance - 1, one, one], tolerance));
    assert!(is_similar(&image, &star, &vec![one, one, tolerance + 1, one, one], tolerance));
    // the last connection is not compared
    let other = polygon_with(&[0.5, 0.5, 0.5, 0.5, 0.5, 0.0]);
    assert!(is_similar(&image, &other, &vec![one, one, one, one, one], tolerance));
}

#[test]
fn a_ratio_just_under_the_tolerance_does_not_fit() {
    let image = vec![polygon_with(&[0.98, 1.0])];
    let stars = vec![polygon_with(&[1.0, 1.0])];
    assert!(fit(&image, &stars, 0.99).is_empty());
    assert_eq!(pairs(&fit(&image, &stars, 0.98)), vec![(0, 0)]);
    assert_eq!(pairs(&fit(&image, &stars, 0.5)), vec![(0, 0)]);
}

#[test]
fn two_lengths_of_zero_do_not_fit() {
    let image = vec![polygon_with(&[0.0, 0.5, 0.5, 0.75, 0.9, 1.0])];
    let stars = vec![polygon_with(&[0.0, 0.5, 0.5, 0.75, 0.9, 1.0])];
    assert!(fit(&image, &stars, 0.99).is_empty());
    let one = 1.0_f64.to_bits();
    assert!(!is_similar(&image[0], &stars[0], &vec![one, one, one, one, one], 0.99_f64.to_bits()));
    // one length of zero gives a ratio of zero
    let other = vec![polygon_with(&[0.1, 0.5, 0.5, 0.75, 0.9, 1.0])];
    assert!(fit(&image, &other, 0.99).is_empty());
}

#[test]
fn lists_of_other_shape_cannot_be_compared() {
    let image = vec![polygon_with(&[0.5, 1.0])];
    let stars = vec![polygon_with(&[0.5, 0.7, 1.0])];
    let one = 1.0_f64.to_bits();
    assert!(!is_comparable(&image, &stars, &vec![vec![vec![one, one]]]));
    assert!(!is_comparable(&image, &image, &vec![vec![vec![one, one]]]));
    assert!(is_comparable(&image, &image, &vec![vec![vec![one]]]));
    assert!(!is_comparable(&image, &image, &vec![vec![]]));
    assert!(!is_comparable(&image, &image, &vec![]));
    assert!(is_comparable(&Vec::new(), &stars, &Vec::new()));
    assert!(is_comparable(&image, &Vec::new(), &vec![vec![]]));
    assert!(find_fit(&image, &Vec::new(), &vec![vec![]], 0).is_empty());
}
