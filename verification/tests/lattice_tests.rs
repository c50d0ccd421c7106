// The helpers below evaluate `f64` lattice quantities (row-major data of
// side `l`) over the verified site plans, in the plans' order.
use renormalization_learning::geometry::{correlation_pairs, energy_bonds};
use renormalization_learning::random::{xorshift_states, xorshift_step, SEED_MIX};

fn random_data(l: usize, lo: f64, hi: f64, seed: u64) -> Vec<f64> {
    let range = hi - lo;
    xorshift_states(seed, l * l)
        .into_iter()
        .map(|s| lo + range * ((s as f64) * (1.0 / 18446744073709551616.0_f64)))
        .collect()
}

fn magnetization(data: &[f64]) -> f64 {
    data.iter().sum::<f64>() / data.len() as f64
}

fn energy(data: &[f64], l: usize) -> f64 {
    let mut e = 0.0;
    for (i, j) in energy_bonds(l) {
        e -= data[i] * data[j];
    }
    e
}

fn correlation(data: &[f64], l: usize, r: usize) -> f64 {
    if r >= l {
        return 0.0;
    }
    let mag = magnetization(data);
    let pairs = correlation_pairs(l, r);
    let mut sum = 0.0;
    for &(i, j) in pairs.iter() {
        sum += data[i] * data[j];
    }
    (sum / pairs.len() as f64) - mag * mag
}

#[test]
fn test_energy_ferromagnetic() {
    let l = 8;
    let data = vec![1.0; l * l];
    // Each bond counted once: total bonds = L^2 * 2 = 128.
    let e = energy(&data, l);
    assert!((e - (-128.0)).abs() < 1e-10);
}

#[test]
fn test_energy_antiferro() {
    let l = 4;
    let mut data = vec![0.0; l * l];
    for y in 0..l {
        for x in 0..l {
            data[y * l + x] = if (x + y) % 2 == 0 { 1.0 } else { -1.0 };
        }
    }
    let e = energy(&data, l);
    assert!((e - 32.0).abs() < 1e-10);
}

#[test]
fn test_correlation_zero() {
    let mut data = vec![0.0; 16];
    for i in 0..16 {
        data[i] = if i % 2 == 0 { 1.0 } else { -1.0 };
    }
    let c0 = correlation(&data, 4, 0);
    assert!((c0 - 1.0).abs() < 1e-10);
}

#[test]
fn test_correlation_uniform() {
    let data = vec![1.0; 16];
    let c = correlation(&data, 4, 1);
    assert!((c).abs() < 1e-10);
}

#[test]
fn test_single_site() {
    let data = vec![1.0];
    assert!((magnetization(&data) - 1.0).abs() < 1e-15);
    assert!((energy(&data, 1) - 0.0).abs() < 1e-15);
    let c0 = correlation(&data, 1, 0);
    assert!((c0).abs() < 1e-15);
}

#[test]
fn test_l2_correlation_index_bounds() {
    let data = vec![0.0; 64];
    let c = correlation(&data, 8, 7);
    assert!(c.is_finite());
    let c_out = correlation(&data, 8, 8);
    assert!((c_out).abs() < 1e-15);
    assert!(correlation_pairs(8, 8).is_empty());
}

#[test]
fn test_energy_for_small_lattice() {
    let data = vec![0.0];
    assert!((energy(&data, 1) - 0.0).abs() < 1e-15);
    assert!(energy_bonds(1).is_empty());
}

#[test]
fn test_random_values_in_range() {
    let data = random_data(100, -5.0, 5.0, 1234);
    assert_eq!(data.len(), 10000);
    for v in data.iter() {
        assert!(*v >= -5.0 && *v < 5.0);
    }
}

#[test]
fn test_different_random_seeds() {
    let d1 = random_data(4, 0.0, 1.0, 42);
    let d2 = random_data(4, 0.0, 1.0, 42);
    let same: f64 = d1.iter().zip(d2.iter()).map(|(a, b)| (a - b).abs()).sum();
    assert!(same < 1e-15);
    let d3 = random_data(4, 0.0, 1.0, 99);
    let diff: f64 = d1.iter().zip(d3.iter()).map(|(a, b)| (a - b).abs()).sum();
    assert!(diff > 1e-10);
}

#[test]
fn test_correlation_symmetric() {
    let data = random_data(8, -1.0, 1.0, 42);
    let c1 = correlation(&data, 8, 2);
    let c2 = correlation(&data, 8, 6);
    assert!((c1 - c2).abs() < 1e-10);
}

#[test]
fn xorshift_known_states() {
    assert_eq!(SEED_MIX, 0x9E3779B97F4A7C15);
    assert_eq!(
        xorshift_states(42, 3),
        vec![285734345878647650, 6384020178842157425, 4981082199474181814]
    );
    assert_eq!(xorshift_step(SEED_MIX), 285734347287933762);
    assert!(xorshift_states(7, 0).is_empty());
}

#[test]
fn xorshift_states_chain() {
    let s = xorshift_states(5, 10);
    assert_eq!(s[0], xorshift_step(5 ^ SEED_MIX));
    for i in 1..10 {
        assert_eq!(s[i], xorshift_step(s[i - 1]));
    }
}

#[test]
fn energy_bonds_layout() {
    let l = 3;
    let bonds = energy_bonds(l);
    assert_eq!(bonds.len(), 2 * l * l);
    // site (2, 0) = 2: right neighbour wraps to (0, 0), below is (2, 1) = 5
    assert_eq!(bonds[4], (2, 0));
    assert_eq!(bonds[5], (2, 5));
    // site (1, 2) = 7: right is (2, 2) = 8, below wraps to (1, 0) = 1
    assert_eq!(bonds[14], (7, 8));
    assert_eq!(bonds[15], (7, 1));
    assert!(energy_bonds(0).is_empty());
}

#[test]
fn energy_bonds_each_site_twice_as_source() {
    let l = 5;
    let bonds = energy_bonds(l);
    let mut as_first = vec![0usize; l * l];
    let mut as_second = vec![0usize; l * l];
    for (i, j) in bonds {
        as_first[i] += 1;
        as_second[j] += 1;
    }
    assert!(as_first.iter().all(|&c| c == 2));
    assert!(as_second.iter().all(|&c| c == 2));
}

#[test]
fn correlation_pairs_layout_and_reflection() {
    let l = 5;
    let p2 = correlation_pairs(l, 2);
    let p3 = correlation_pairs(l, 3);
    assert_eq!(p2.len(), 50);
    // site (4, 1) = 9: two to the right wraps to (1, 1) = 6; two below is (4, 3) = 19
    assert_eq!(p2[18], (9, 6));
    assert_eq!(p2[19], (9, 19));
    // reflected pairs: at distance 3 the site 6 pairs back with 9 horizontally
    assert_eq!(p3[12], (6, 9));
    // and site 19 pairs back with 9 vertically
    assert_eq!(p3[39], (19, 9));
    let p0 = correlation_pairs(l, 0);
    assert_eq!(p0[8], (4, 4));
    assert_eq!(p0[9], (4, 4));
}
