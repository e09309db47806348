use ttc::ccdf::{entries_by_distance, AccumulatedCcdf};
use ttc::mrc::miss_ratio_positions;
use ttc::sharing::{partition_point_below, settle_shared_aet, tolerance_distances};

fn sample() -> Vec<(usize, f64)> {
    vec![
        (1, 1059850.0),
        (2, 1456590.0),
        (4, 2437730.0),
        (8, 4409820.0),
        (16, 2588550.0),
        (32, 141462.0),
    ]
}

/// The complementary distribution and its running integral, walked as the
/// library's schedule says.
fn ccdf_of(data: &[(usize, f64)]) -> (Vec<f64>, Vec<f64>) {
    let keys: Vec<usize> = data.iter().map(|x| x.0).collect();
    let accesses: f64 = data.iter().map(|x| x.1).sum();
    let walk = entries_by_distance(&keys);
    let mut distribution = vec![1.0];
    let mut accumulation = vec![1.0];
    for i in 1..walk.len() {
        let prev = distribution[i - 1];
        match walk[i] {
            None => distribution.push(prev),
            Some(k) => distribution.push(prev - data[k].1 / accesses),
        }
        accumulation.push(distribution[i] + accumulation[i - 1]);
    }
    (distribution, accumulation)
}

fn table_of(accumulation: &[f64]) -> AccumulatedCcdf {
    AccumulatedCcdf { floors: accumulation.iter().map(|x| *x as usize).collect() }
}

#[test]
fn ccdf_basic() {
    let (_, accumulation) = ccdf_of(&sample());
    let x = table_of(&accumulation);
    assert_eq!(x.max_reuse_distance(), 32);
    assert_eq!(x.aet(2), Some(2));
    assert_eq!(x.aet(3), Some(3));
    assert_eq!(x.aet(4), Some(4));
    assert_eq!(x.aet(5), Some(6));

    // when cache is too large, the aet is undefined
    assert_eq!(x.aet(16), None);
    assert_eq!(x.aet(32), None);
}

#[test]
fn rdist_basic() {
    let data = sample();
    let keys: Vec<usize> = data.iter().map(|x| x.0).collect();
    let accesses: f64 = data.iter().map(|x| x.1).sum();
    let walk = entries_by_distance(&keys);
    let mut pdf = vec![0.0];
    let mut cdf = vec![0.0];
    let mut ccdf = vec![1.0];
    let mut accdf = vec![1.0];
    for i in 1..walk.len() {
        match walk[i] {
            None => {
                ccdf.push(ccdf[i - 1]);
                pdf.push(0.0);
            }
            Some(k) => {
                ccdf.push(ccdf[i - 1] - data[k].1 / accesses);
                pdf.push(data[k].1 / accesses);
            }
        }
        accdf.push(ccdf[i] + accdf[i - 1]);
        cdf.push(pdf[i] + cdf[i - 1]);
    }
    let x = table_of(&accdf);
    assert_eq!(x.max_reuse_distance(), 32);
    assert_eq!(x.aet(2), Some(2));
    assert_eq!(x.aet(3), Some(3));
    assert_eq!(x.aet(4), Some(4));
    assert_eq!(x.aet(5), Some(6));

    // when cache is too large, the aet is undefined
    assert_eq!(x.aet(16), None);
    assert_eq!(x.aet(32), None);
    assert!((cdf[32] - 1.0).abs() < 1e-9);
}

#[test]
fn mcr_basic() {
    let (distribution, _) = ccdf_of(&sample());
    let mut sums = vec![0usize];
    let mut integration = 0.0;
    for x in &distribution {
        integration += x;
        sums.push(integration as usize);
    }
    let positions = miss_ratio_positions(&sums, 8);
    assert_eq!(positions, vec![0, 2, 3, 4, 6, 8, 13]);
    let mut ratios = vec![1.0];
    ratios.extend(positions.iter().map(|t| distribution[*t]));
    assert_eq!(ratios.len(), 8);
    assert_eq!(ratios[1], 1.0);
    assert!((ratios[2] - 0.7919266095705955).abs() < 1e-12);
    assert!((ratios[7] - 0.2257327227165996).abs() < 1e-12);
}

#[test]
fn walk_places_entries_at_their_distances() {
    let walk = entries_by_distance(&vec![1, 2, 4, 8]);
    assert_eq!(walk.len(), 9);
    assert_eq!(walk[0], None);
    assert_eq!(walk[1], Some(0));
    assert_eq!(walk[2], Some(1));
    assert_eq!(walk[3], None);
    assert_eq!(walk[4], Some(2));
    assert_eq!(walk[7], None);
    assert_eq!(walk[8], Some(3));
}

#[test]
fn walk_takes_distance_zero_at_one() {
    // an entry at distance 0 takes effect at distance 1, moving those after it
    let walk = entries_by_distance(&vec![0, 2]);
    assert_eq!(walk, vec![None, Some(0), Some(1)]);
    assert_eq!(entries_by_distance(&vec![]), vec![None]);
}

#[test]
fn aet_edges() {
    let t = AccumulatedCcdf { floors: vec![1, 1, 2, 2, 2, 5] };
    assert_eq!(t.max_reuse_distance(), 5);
    assert_eq!(t.aet(1), Some(0));
    assert_eq!(t.aet(2), Some(2));
    assert_eq!(t.aet(3), None);
    assert_eq!(t.aet(0), None);
    assert_eq!(t.aet(5), Some(5));
    assert_eq!(t.aet(6), None);
}

#[test]
fn dist_test() {
    // the private distances, then the shared ones, as the total distribution lists them
    let keys = vec![1, 2, 4, 256, 512, 32768];
    for cache in 0..128 {
        let _ = tolerance_distances(&keys, cache, None);
    }
    assert_eq!(tolerance_distances(&keys, 3, None), Some((2, 4)));
    assert_eq!(tolerance_distances(&keys, 1, None), None);
    assert_eq!(tolerance_distances(&keys, 40000, None), None);
    assert_eq!(tolerance_distances(&keys, 300, Some(3)), Some((2, 512)));
    assert_eq!(tolerance_distances(&keys, 300, Some(1)), None);
    assert_eq!(partition_point_below(&keys, 256), 3);
    assert_eq!(partition_point_below(&keys, 257), 4);
    assert_eq!(settle_shared_aet(3, 512, 10), Some(3));
    assert_eq!(settle_shared_aet(10, 512, 10), None);
    assert_eq!(settle_shared_aet(3, 3, 10), None);
}

#[test]
fn miss_ratio_positions_small_limits() {
    assert_eq!(miss_ratio_positions(&vec![], 1), Vec::<usize>::new());
    assert_eq!(miss_ratio_positions(&vec![0], 0), Vec::<usize>::new());
    assert_eq!(miss_ratio_positions(&vec![0, 1, 1, 2], 3), vec![0, 2]);
}

#[test]
fn curve_stops_at_first_undefined() {
    let mut c = ttc::curve::Curve::new();
    assert!(c.record(2, Some(1.5)));
    assert!(c.record(3, Some(2.5)));
    assert!(!c.record(4, None));
    assert!(!c.record(5, Some(9.0)));
    assert_eq!(c.points, vec![(2, 1.5), (3, 2.5)]);
    assert_eq!(c.undefined_from, Some(4));
}

#[test]
fn aet_finds_every_size_up_to_the_top() {
    let (_, accumulation) = ccdf_of(&sample());
    let t = table_of(&accumulation);
    let top = *t.floors.last().unwrap();
    for c in 1..=top {
        let i = t.aet(c).unwrap();
        assert_eq!(t.floors[i], c);
        assert!(i <= t.max_reuse_distance());
    }
    assert_eq!(t.aet(top + 1), None);
    assert_eq!(t.aet(0), None);
}
