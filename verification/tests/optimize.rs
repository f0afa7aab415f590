//! Scenario checks of the reduction optimizer: the returned count is the
//! first point on the search grid where one more step stops paying.

use apfloat::cos::CosArgReductionEstimator;
use apfloat::cos::CosPolycoeffGen;
use apfloat::series::series_cost_optimize;
use apfloat::series::series_niter;
use apfloat::series::series_cost;
use apfloat::series::ArgReductionEstimator;
use apfloat::series::PolycoeffGen;
use apfloat::tan::TanArgReductionEstimator;
use apfloat::tan::TanPolycoeffGen;
use apfloat::util::log2_floor;
use apfloat::util::sat_add;
use apfloat::util::sat_mul;

/// The modeled total cost of one configuration, recomputed from the
/// public pieces.
fn total_cost_cos(gen: &CosPolycoeffGen, rt: usize, p: usize, m: isize, pwr_step: usize) -> u64 {
    let m_eff = CosArgReductionEstimator::reduction_effect(rt, m);
    let niter = series_niter(p, m_eff) / pwr_step;
    sat_add(
        series_cost(niter, p, gen),
        CosArgReductionEstimator::reduction_cost(rt, p),
    )
}

fn total_cost_tan(gen: &TanPolycoeffGen, rt: usize, p: usize, m: isize) -> u64 {
    let m_eff = TanArgReductionEstimator::reduction_effect(rt, m);
    let niter = series_niter(p, m_eff);
    sat_add(
        sat_mul(gen.iter_cost() as u64, niter as u64),
        TanArgReductionEstimator::reduction_cost(rt, p),
    )
}

#[test]
fn cosine_reduction_count_is_grid_minimal() {
    for &(p, m) in &[(320usize, 0isize), (320, -3), (1024, 2), (4096, -1), (128, 5)] {
        let gen = CosPolycoeffGen::new(p).unwrap();
        let (rt, niter, m_eff) = series_cost_optimize::<CosArgReductionEstimator, _>(
            p, &gen, m, 2, false,
        );
        let step = log2_floor(p) / 2;
        let r0 = if (step as isize) > m { (step as isize - m) as usize } else { 0 };
        assert!(rt >= r0);
        assert_eq!((rt - r0) % step, 0);
        // every step taken strictly lowered the cost
        let mut k = r0;
        while k < rt {
            assert!(total_cost_cos(&gen, k + step, p, m, 2) < total_cost_cos(&gen, k, p, m, 2));
            k += step;
        }
        // one more step would not strictly lower it
        assert!(total_cost_cos(&gen, rt + step, p, m, 2) >= total_cost_cos(&gen, rt, p, m, 2));
        // the returned estimate and magnitude belong to the chosen count
        assert_eq!(m_eff, CosArgReductionEstimator::reduction_effect(rt, m));
        assert_eq!(niter, series_niter(p, m_eff) / 2);
    }
}

#[test]
fn tangent_reduction_count_is_grid_minimal() {
    for &(p, m) in &[(320usize, 0isize), (640, -2), (2048, 4)] {
        let gen = TanPolycoeffGen::new(p).unwrap();
        let (rt, _niter, m_eff) = series_cost_optimize::<TanArgReductionEstimator, _>(
            p, &gen, m, 1, true,
        );
        let step = log2_floor(p) / 2;
        let r0 = if (step as isize) > m { (step as isize - m) as usize } else { 0 };
        assert!(rt >= r0);
        assert_eq!((rt - r0) % step, 0);
        let mut k = r0;
        while k < rt {
            assert!(total_cost_tan(&gen, k + step, p, m) < total_cost_tan(&gen, k, p, m));
            k += step;
        }
        assert!(total_cost_tan(&gen, rt + step, p, m) >= total_cost_tan(&gen, rt, p, m));
        assert_eq!(m_eff, TanArgReductionEstimator::reduction_effect(rt, m));
    }
}
