use star_polygon::closest::closest_stars;
use star_polygon::number::{equal_numbers, LENGTH_MAX};
use star_polygon::polygon::{
    are_usable, find_polygons, is_well_formed, polygon_connections, polygon_lengths,
    sorted_lengths, Center, Polygon, Star, POLYGON_EDGES,
};

fn star_distance_rad(a: (f64, f64), b: (f64, f64)) -> f64 {
    (b.0 - a.0).abs().sqrt() + (b.1 - a.1).abs().sqrt()
}

fn stars_of(points: &[(f64, f64)]) -> Vec<Star> {
    let mut stars = Vec::new();
    for (i, a) in points.iter().enumerate() {
        let mut distance = Vec::new();
        for b in points.iter() {
            distance.push(star_distance_rad(*a, *b).to_bits());
        }
        stars.push(Star { id: i as u64, db_id: 0, distance });
    }
    stars
}

fn centers_of(points: &[(f64, f64)], stars: &Vec<Star>, edges: usize) -> Vec<Center> {
    let mut centers = Vec::new();
    for i in 0..stars.len() {
        let star_vec = closest_stars(&stars[i].distance, i, edges);
        let mut ra = 0.0;
        let mut dec = 0.0;
        for star_id in star_vec.iter() {
            ra += points[*star_id].0;
            dec += points[*star_id].1;
        }
        centers.push(Center {
            ra_rad: (ra / edges as f64).to_bits(),
            dec_rad: (dec / edges as f64).to_bits(),
        });
    }
    centers
}

fn build(points: &[(f64, f64)], edges: usize) -> Option<Vec<Polygon>> {
    let stars = stars_of(points);
    assert!(is_well_formed(&stars));
    let centers = centers_of(points, &stars, edges);
    find_polygons(&stars, &centers, edges)
}

fn signature(polygon: &Polygon) -> Vec<f64> {
    let longest = f64::from_bits(polygon.length_list[polygon.length_list.len() - 1]);
    polygon.length_list.iter().map(|l| f64::from_bits(*l) / longest).collect()
}

fn square_and_far() -> Vec<(f64, f64)> {
    vec![(0.0, 0.0), (1.0, 0.0), (0.0, 1.0), (1.0, 1.0), (10.0, 10.0)]
}

#[test]
fn connections_of_small_polygons() {
    assert_eq!(polygon_connections(0), 0);
    assert_eq!(polygon_connections(1), 0);
    assert_eq!(polygon_connections(2), 1);
    assert_eq!(polygon_connections(3), 3);
    assert_eq!(polygon_connections(POLYGON_EDGES), 6);
    assert_eq!(polygon_connections(5), 10);
    assert_eq!(polygon_connections(100), 4950);
}

#[test]
fn metric_is_sum_of_square_roots() {
    assert_eq!(star_distance_rad((0.0, 0.0), (4.0, 9.0)), 5.0);
    assert_eq!(star_distance_rad((4.0, 9.0), (0.0, 0.0)), 5.0);
    assert_eq!(star_distance_rad((1.0, 1.0), (1.0, 1.0)), 0.0);
    // not the straight-line distance, which would be 5 for (3, 4)
    assert_eq!(star_distance_rad((0.0, 0.0), (3.0, 4.0)), 3.0_f64.sqrt() + 2.0);
}

#[test]
fn closest_stars_of_the_corner() {
    let stars = stars_of(&square_and_far());
    assert_eq!(closest_stars(&stars[0].distance, 0, 4), vec![0, 1, 2, 3]);
    assert_eq!(closest_stars(&stars[4].distance, 4, 4), vec![4, 3, 1, 2]);
    assert_eq!(closest_stars(&stars[1].distance, 1, 4), vec![1, 0, 3, 2]);
}

#[test]
fn closest_stars_first_seen_wins_on_equal_length() {
    let one = 1.0_f64.to_bits();
    let two = 2.0_f64.to_bits();
    let distance = vec![0, two, one, one, two, one];
    assert_eq!(closest_stars(&distance, 0, 4), vec![0, 2, 3, 5]);
    assert_eq!(closest_stars(&distance, 0, 5), vec![0, 2, 3, 5, 1]);
    assert_eq!(closest_stars(&distance, 0, 2), vec![0, 2]);
    assert_eq!(closest_stars(&distance, 0, 1), vec![0]);
    assert_eq!(closest_stars(&distance, 0, 0), Vec::<usize>::new());
}

#[test]
fn closest_stars_take_coincident_stars() {
    let distance = vec![0, 0, 1.0_f64.to_bits(), 0];
    assert_eq!(closest_stars(&distance, 0, 3), vec![0, 1, 3]);
    assert_eq!(closest_stars(&distance, 3, 3), vec![3, 0, 1]);
}

#[test]
fn closest_stars_leave_unusable_lengths_out() {
    let one = 1.0_f64.to_bits();
    let distance = vec![0, f64::INFINITY.to_bits(), one, f64::NAN.to_bits(), LENGTH_MAX];
    assert_eq!(closest_stars(&distance, 0, 4), vec![0, 2, 0, 0]);
    assert_eq!(LENGTH_MAX, f64::MAX.to_bits());
}

#[test]
fn lengths_between_the_corners() {
    let stars = stars_of(&square_and_far());
    let one = 1.0_f64.to_bits();
    let two = 2.0_f64.to_bits();
    let lengths = polygon_lengths(&stars, &vec![0, 1, 2, 3]);
    assert_eq!(lengths, vec![one, one, two, two, one, one]);
    assert_eq!(sorted_lengths(lengths), vec![one, one, one, one, two, two]);
    assert_eq!(polygon_lengths(&stars, &vec![2]), Vec::<u64>::new());
    assert_eq!(polygon_lengths(&stars, &Vec::new()), Vec::<u64>::new());
}

#[test]
fn sorted_lengths_are_ascending() {
    let keys: Vec<u64> = [3.5_f64, 0.0, 2.0, 0.25, 2.0, 1e-9].iter().map(|x| x.to_bits()).collect();
    let sorted: Vec<f64> = sorted_lengths(keys).iter().map(|k| f64::from_bits(*k)).collect();
    assert_eq!(sorted, vec![0.0, 1e-9, 0.25, 2.0, 2.0, 3.5]);
}

#[test]
fn equal_numbers_follow_the_numbers() {
    let zero = 0.0_f64.to_bits();
    let minus_zero = (-0.0_f64).to_bits();
    let nan = f64::NAN.to_bits();
    assert!(equal_numbers(zero, minus_zero));
    assert!(equal_numbers(minus_zero, zero));
    assert!(equal_numbers(1.5_f64.to_bits(), 1.5_f64.to_bits()));
    assert!(!equal_numbers(1.5_f64.to_bits(), (-1.5_f64).to_bits()));
    assert!(!equal_numbers(nan, nan));
    assert!(!equal_numbers(nan, zero));
    assert!(!equal_numbers((-f64::NAN).to_bits(), (-f64::NAN).to_bits()));
    assert!(equal_numbers(f64::INFINITY.to_bits(), f64::INFINITY.to_bits()));
    assert!(!equal_numbers(f64::INFINITY.to_bits(), f64::NEG_INFINITY.to_bits()));
}

#[test]
fn square_and_far_star_give_two_polygons() {
    let polygons = build(&square_and_far(), 4).unwrap();
    assert_eq!(polygons.len(), 2);
    assert_eq!(polygons[0].star_index, 0);
    assert_eq!(polygons[0].star_list, vec![0, 1, 2, 3]);
    assert_eq!(polygons[0].length_list.len(), 6);
    assert_eq!(signature(&polygons[0]), vec![0.5, 0.5, 0.5, 0.5, 1.0, 1.0]);
    assert_eq!(f64::from_bits(polygons[0].center_ra_rad), 0.5);
    assert_eq!(f64::from_bits(polygons[0].center_dec_rad), 0.5);
    assert_eq!(polygons[1].star_index, 4);
    assert_eq!(polygons[1].star_list, vec![4, 3, 1, 2]);
    assert_eq!(f64::from_bits(polygons[1].center_ra_rad), 3.0);
    assert_eq!(f64::from_bits(polygons[1].center_dec_rad), 3.0);
    let last = signature(&polygons[1]);
    assert_eq!(last.len(), 6);
    assert_eq!(last[5], 1.0);
}

#[test]
fn too_few_stars_give_nothing() {
    assert!(build(&[(0.0, 0.0), (1.0, 0.0), (0.0, 1.0)], 4).is_none());
    assert!(build(&[], 4).is_none());
    assert!(build(&[(0.0, 0.0)], 2).is_none());
    assert!(build(&[(0.0, 0.0), (1.0, 0.0), (0.0, 1.0), (5.0, 1.0)], 4).is_some());
}

#[test]
fn polygons_have_distinct_stars_and_ascending_lengths() {
    let points = vec![
        (0.3, 1.7), (2.9, 0.4), (1.1, 1.1), (4.6, 3.2), (0.9, 2.8), (3.3, 3.9), (2.2, 0.1),
        (5.0, 0.6), (1.8, 4.4),
    ];
    for edges in 2..=5 {
        let polygons = build(&points, edges).unwrap();
        assert!(!polygons.is_empty());
        assert!(polygons.len() <= points.len());
        for polygon in &polygons {
            assert_eq!(polygon.star_list.len(), edges);
            assert_eq!(polygon.star_list[0], polygon.star_index);
            for p in 0..edges {
                for q in (p + 1)..edges {
                    assert_ne!(polygon.star_list[p], polygon.star_list[q]);
                }
            }
            assert_eq!(polygon.length_list.len(), polygon_connections(edges));
            let lengths = signature(polygon);
            for p in 1..lengths.len() {
                assert!(lengths[p - 1] <= lengths[p]);
            }
            assert_eq!(lengths[lengths.len() - 1], 1.0);
        }
    }
}

#[test]
fn building_twice_gives_the_same() {
    let points = vec![(0.3, 1.7), (2.9, 0.4), (1.1, 1.1), (4.6, 3.2), (0.9, 2.8), (3.3, 3.9)];
    let first = build(&points, 4).unwrap();
    let second = build(&points, 4).unwrap();
    assert_eq!(first.len(), second.len());
    for (a, b) in first.iter().zip(second.iter()) {
        assert_eq!(a.star_index, b.star_index);
        assert_eq!(a.star_list, b.star_list);
        assert_eq!(a.length_list, b.length_list);
        assert_eq!(a.center_ra_rad, b.center_ra_rad);
        assert_eq!(a.center_dec_rad, b.center_dec_rad);
    }
}

#[test]
fn coincident_stars_give_a_zero_length() {
    let polygons = build(&[(0.0, 0.0), (0.0, 0.0), (1.0, 0.0), (0.0, 4.0)], 4).unwrap();
    assert_eq!(polygons[0].star_list, vec![0, 1, 2, 3]);
    assert_eq!(polygons[0].length_list[0], 0);
    assert_eq!(signature(&polygons[0])[0], 0.0);
    // every star has the same stars round it, hence the same centre
    assert_eq!(polygons.len(), 1);
}

#[test]
fn a_centre_of_minus_zero_is_a_centre_of_zero() {
    let stars = stars_of(&[(0.0, 0.0), (1.0, 0.0), (0.0, 1.0), (1.0, 1.0)]);
    let zero = Center { ra_rad: 0.0_f64.to_bits(), dec_rad: 0.0_f64.to_bits() };
    let minus = Center { ra_rad: (-0.0_f64).to_bits(), dec_rad: 0.0_f64.to_bits() };
    let other = Center { ra_rad: 1.0_f64.to_bits(), dec_rad: 0.0_f64.to_bits() };
    let undefined = Center { ra_rad: f64::NAN.to_bits(), dec_rad: 0.0_f64.to_bits() };
    let polygons =
        find_polygons(&stars, &vec![zero, minus, other, zero], 4).unwrap();
    assert_eq!(polygons.iter().map(|p| p.star_index).collect::<Vec<usize>>(), vec![0, 2]);
    let polygons =
        find_polygons(&stars, &vec![undefined, undefined, zero, undefined], 4).unwrap();
    assert_eq!(polygons.iter().map(|p| p.star_index).collect::<Vec<usize>>(), vec![0, 1, 2, 3]);
}

#[test]
fn ragged_star_lists_are_not_well_formed() {
    let mut stars = stars_of(&square_and_far());
    assert!(is_well_formed(&stars));
    stars[3].distance.pop();
    assert!(!is_well_formed(&stars));
    assert!(is_well_formed(&Vec::new()));
}

#[test]
fn lengths_that_are_not_finite_are_not_usable() {
    assert!(are_usable(&stars_of(&square_and_far())));
    assert!(are_usable(&Vec::new()));
    let far = stars_of(&[(0.0, 0.0), (1.0, 0.0), (f64::MAX, 0.0), (-f64::MAX, 1.0)]);
    assert_eq!(f64::from_bits(far[2].distance[3]), f64::INFINITY);
    assert!(!are_usable(&far));
    let undefined = stars_of(&[(0.0, 0.0), (1.0, f64::NAN), (0.0, 1.0)]);
    assert!(!are_usable(&undefined));
    // the length of a star to itself does not count
    let mut stars = stars_of(&square_and_far());
    stars[2].distance[2] = f64::INFINITY.to_bits();
    assert!(are_usable(&stars));
    stars[2].distance[4] = LENGTH_MAX;
    assert!(!are_usable(&stars));
    stars[2].distance[4] = LENGTH_MAX - 1;
    assert!(are_usable(&stars));
}

#[test]
fn a_star_out_of_reach_leaves_its_place_to_star_zero() {
    let far = stars_of(&[(0.0, 0.0), (1.0, 0.0), (f64::MAX, 0.0), (-f64::MAX, 1.0)]);
    assert_eq!(closest_stars(&far[2].distance, 2, 4), vec![2, 0, 1, 0]);
    assert_eq!(closest_stars(&far[0].distance, 0, 4), vec![0, 1, 2, 3]);
}
