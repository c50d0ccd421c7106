// The helpers below evaluate `f64` lattice quantities (row-major data of
// side `l`) over the verified site plans, in the plans' order.
use renormalization_learning::coarse::CoarseGrainingOperator;
use renormalization_learning::flow::rg_flow_dims;
use renormalization_learning::geometry::energy_bonds;
use renormalization_learning::random::xorshift_states;

fn random_data(l: usize, lo: f64, hi: f64, seed: u64) -> Vec<f64> {
    let range = hi - lo;
    xorshift_states(seed, l * l)
        .into_iter()
        .map(|s| lo + range * ((s as f64) * (1.0 / 18446744073709551616.0_f64)))
        .collect()
}

fn magnetization(data: &[f64]) -> f64 {
    data.iter().sum::<f64>() / data.len() as f64
}

/// Block averages over the verified plan; returns the coarse data and side.
fn coarse_grain(op: &CoarseGrainingOperator, data: &[f64], l: usize) -> (Vec<f64>, usize) {
    let m = op.coarse_dim(l);
    let plan = op.coarse_grain_plan(l);
    let b = op.b;
    let coarse: Vec<f64> = plan
        .iter()
        .map(|block| block.iter().map(|&s| data[s]).sum::<f64>() / (b * b) as f64)
        .collect();
    assert_eq!(coarse.len(), m * m);
    (coarse, m)
}

fn rg_step(op: &CoarseGrainingOperator, data: &[f64], l: usize, zeta: f64) -> (Vec<f64>, usize) {
    let (c, m) = coarse_grain(op, data, l);
    (c.into_iter().map(|v| v * zeta).collect(), m)
}

fn skill_is_fixed_point(data: &[f64], threshold: f64) -> bool {
    let mag = magnetization(data);
    if mag < threshold {
        return false;
    }
    data.iter().all(|v| (*v - mag).abs() <= 1.0 - threshold)
}

#[test]
fn test_block_spin_reduces() {
    let data = random_data(8, -1.0, 1.0, 123);
    let op = CoarseGrainingOperator::new(2);
    let (_, cl) = coarse_grain(&op, &data, 8);
    assert_eq!(cl, 4);
}

#[test]
fn test_block_spin_reduces4() {
    let data = random_data(16, -1.0, 1.0, 456);
    let op = CoarseGrainingOperator::new(4);
    let (_, cl) = coarse_grain(&op, &data, 16);
    assert_eq!(cl, 4);
}

#[test]
fn test_mag_preserved_uniform() {
    let data = vec![0.75; 64];
    let mag0 = magnetization(&data);
    let op = CoarseGrainingOperator::new(2);
    let (cg, _) = coarse_grain(&op, &data, 8);
    assert!((magnetization(&cg) - mag0).abs() < 1e-15);
}

#[test]
fn test_rg_b1() {
    let data = random_data(4, -1.0, 1.0, 77);
    let op = CoarseGrainingOperator::new(1);
    let (cg, cl) = coarse_grain(&op, &data, 4);
    assert_eq!(cl, 4);
    let mag0 = magnetization(&data);
    let mag1 = magnetization(&cg);
    assert!((mag1 - mag0).abs() < 1e-15);
}

#[test]
fn test_rg_step_reduces() {
    let data = random_data(16, -1.0, 1.0, 42);
    let op = CoarseGrainingOperator::new(2);
    let (_, cl) = rg_step(&op, &data, 16, 1.0);
    assert_eq!(cl, 8);
}

#[test]
fn test_skill_coarse_grain_preserves() {
    let data = vec![1.0; 256];
    let op = CoarseGrainingOperator::new(2);
    let (cg, _) = coarse_grain(&op, &data, 16);
    assert!((magnetization(&cg) - 1.0).abs() < 1e-15);
    assert!(skill_is_fixed_point(&cg, 0.99));
}

#[test]
fn test_rgflow_create() {
    let dims = rg_flow_dims(16, 2, 3).unwrap();
    assert_eq!(dims.len(), 4);
    assert_eq!(dims[0], 16);
    assert_eq!(dims[1], 8);
    assert_eq!(dims[2], 4);
    assert_eq!(dims[3], 2);
}

#[test]
fn test_rgflow_magnetization_flow() {
    let dims = rg_flow_dims(8, 2, 2).unwrap();
    let op = CoarseGrainingOperator::new(2);
    let mut data = random_data(8, -1.0, 1.0, 42);
    let mut mags = vec![magnetization(&data)];
    for w in dims.windows(2) {
        let (next, m) = rg_step(&op, &data, w[0], 1.0);
        assert_eq!(m, w[1]);
        data = next;
        mags.push(magnetization(&data));
    }
    assert_eq!(mags.len(), 3);
    for &m in &mags {
        assert!(m.is_finite());
    }
}

#[test]
fn test_rgflow_energy_flow() {
    let dims = rg_flow_dims(8, 2, 2).unwrap();
    let op = CoarseGrainingOperator::new(2);
    let mut data = random_data(8, -1.0, 1.0, 42);
    let energy = |d: &[f64], l: usize| -> f64 {
        let mut e = 0.0;
        for (i, j) in energy_bonds(l) {
            e -= d[i] * d[j];
        }
        e
    };
    let mut energies = vec![energy(&data, dims[0])];
    for w in dims.windows(2) {
        let (next, m) = rg_step(&op, &data, w[0], 1.0);
        data = next;
        energies.push(energy(&data, m));
    }
    assert_eq!(energies.len(), 3);
    for &e in &energies {
        assert!(e.is_finite());
    }
}

#[test]
fn operator_new_keeps_block_factor() {
    let op = CoarseGrainingOperator::new(3);
    assert_eq!(op.b, 3);
    assert_eq!(op.coarse_dim(27), 9);
    assert_eq!(op.coarse_dim(3), 1);
}

#[test]
fn block_sites_known_values() {
    let op = CoarseGrainingOperator::new(2);
    // block (1, 0) of a 4×4 lattice: sites (2,0), (3,0), (2,1), (3,1)
    assert_eq!(op.block_sites(4, 1, 0), vec![2, 3, 6, 7]);
    // block (0, 1): sites (0,2), (1,2), (0,3), (1,3)
    assert_eq!(op.block_sites(4, 0, 1), vec![8, 9, 12, 13]);
}

#[test]
fn plan_partitions_every_site_once() {
    for &(l, b) in &[(6usize, 3usize), (8, 2), (9, 3), (12, 4), (5, 5), (7, 1)] {
        let op = CoarseGrainingOperator::new(b);
        let plan = op.coarse_grain_plan(l);
        assert_eq!(plan.len(), (l / b) * (l / b));
        let mut seen = vec![0usize; l * l];
        for block in &plan {
            assert_eq!(block.len(), b * b);
            for &s in block {
                seen[s] += 1;
            }
        }
        assert!(seen.iter().all(|&c| c == 1));
    }
}

#[test]
fn unit_block_plan_is_identity() {
    let op = CoarseGrainingOperator::new(1);
    let plan = op.coarse_grain_plan(5);
    assert_eq!(plan.len(), 25);
    for (k, block) in plan.iter().enumerate() {
        assert_eq!(block, &vec![k]);
    }
}

#[test]
fn flow_dims_infeasible_cases() {
    // empty lattice
    assert!(rg_flow_dims(0, 2, 1).is_none());
    assert!(rg_flow_dims(0, 2, 0).is_none());
    // block factor zero
    assert!(rg_flow_dims(8, 0, 0).is_none());
    assert!(rg_flow_dims(8, 0, 2).is_none());
    // lattice would shrink below 1×1
    assert!(rg_flow_dims(8, 2, 4).is_none());
    // side not divisible at the first step
    assert!(rg_flow_dims(6, 4, 1).is_none());
    // zero steps keep the lattice
    assert_eq!(rg_flow_dims(6, 4, 0), Some(vec![6]));
    assert_eq!(rg_flow_dims(27, 3, 2), Some(vec![27, 9, 3]));
    assert_eq!(rg_flow_dims(5, 1, 3), Some(vec![5, 5, 5, 5]));
}

#[test]
fn flow_levels_times_power_give_side() {
    let dims = rg_flow_dims(48, 2, 4).unwrap();
    assert_eq!(dims, vec![48, 24, 12, 6, 3]);
    for (i, &d) in dims.iter().enumerate() {
        assert_eq!(d * 2usize.pow(i as u32), 48);
    }
}

#[test]
fn flow_runs_exactly_when_power_divides_side() {
    for l in 1usize..=64 {
        for b in 1usize..=4 {
            for n in 0usize..=6 {
                let divides = l % b.pow(n as u32) == 0;
                assert_eq!(rg_flow_dims(l, b, n).is_some(), divides, "l={} b={} n={}", l, b, n);
            }
        }
    }
}
