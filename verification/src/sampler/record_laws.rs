//! What the columns of a record mean.

use vstd::arithmetic::power2::{lemma2_to64, lemma_pow2_adds, lemma_pow2_pos, pow2};
use vstd::prelude::*;

use super::state::SamplerModel;
use crate::quantity::{
    lemma_bits_order_values, lemma_nearest_is_duration, lemma_nearest_monotonic, nearest, Quantity,
    INFINITY,
};
use crate::record::BenchmarkRecord;
use crate::rounding::{
    lemma_exceeds_compares_values, lemma_integers_are_exact, lemma_nearest_is_exact,
    lemma_product_is_near, lemma_quotient_is_near, lemma_turning_keeps_the_value,
};

verus! {

/// A quotient that is rounded, then taken a hundred times and rounded again, is off by a little
/// more than two parts in two to the power 53, or by 51 grains.
proof fn lemma_two_roundings(x: nat, w: nat, q: nat, r: nat)
    requires
        0x20_0000_0000_0000 * (q * w) <= 0x20_0000_0000_0000 * x + x + 0x10_0000_0000_0000 * w,
        0x20_0000_0000_0000 * x <= 0x20_0000_0000_0000 * (q * w) + x + 0x10_0000_0000_0000 * w,
        0x20_0000_0000_0000 * r <= 0x20_0000_0000_0000 * (q * 100) + q * 100
            + 0x10_0000_0000_0000,
        0x20_0000_0000_0000 * (q * 100) <= 0x20_0000_0000_0000 * r + q * 100
            + 0x10_0000_0000_0000,
    ensures
        0x20_0000_0000_0000 * (r * w) <= 0x20_0000_0000_0000 * (100 * x) + 201 * x + 51 * (
        0x20_0000_0000_0000 * w),
        0x20_0000_0000_0000 * (100 * x) <= 0x20_0000_0000_0000 * (r * w) + 201 * x + 51 * (
        0x20_0000_0000_0000 * w),
{
    let (a, b) = (q * w, r * w);
    assert(0x20_0000_0000_0000 * b <= 100 * (0x20_0000_0000_0000 * a) + 100 * a
        + 0x10_0000_0000_0000 * w) by (nonlinear_arith)
        requires
            a == q * w,
            b == r * w,
            0x20_0000_0000_0000 * r <= 0x20_0000_0000_0000 * (q * 100) + q * 100
                + 0x10_0000_0000_0000,
    ;
    assert(100 * (0x20_0000_0000_0000 * a) <= 0x20_0000_0000_0000 * b + 100 * a
        + 0x10_0000_0000_0000 * w) by (nonlinear_arith)
        requires
            a == q * w,
            b == r * w,
            0x20_0000_0000_0000 * (q * 100) <= 0x20_0000_0000_0000 * r + q * 100
                + 0x10_0000_0000_0000,
    ;
}

/// The mean load is the CPU time in percent of the wall time, whichever of the two is larger:
/// load times wall time is a hundred times the CPU time, up to the rounding of one quotient and
/// one product. It has the sign of the CPU time, and is infinite only beyond all amounts.
#[verifier::spinoff_prover]
pub proof fn lemma_load_times_wall_is_cpu_time(
    model: SamplerModel,
    record: BenchmarkRecord,
    wall: Quantity,
)
    requires
        model.shows_record(record, wall),
        model.data_collected,
        record.cpu_time.is_finite(),
        wall.is_finite(),
        wall.exceeds(Quantity { bits: 0 }),
    ensures
        ({
            let load = record.mean_load;
            let x = record.cpu_time.over() * pow2(1074);
            let w = record.running_time.over();
            &&& load.minus() == record.cpu_time.minus()
            &&& load.is_finite() ==> 0x20_0000_0000_0000 * (load.over() * w)
                <= 0x20_0000_0000_0000 * (100 * x) + 201 * x + 51 * (0x20_0000_0000_0000 * w)
            &&& load.is_finite() ==> 0x20_0000_0000_0000 * (100 * x) <= 0x20_0000_0000_0000 * (
            load.over() * w) + 201 * x + 51 * (0x20_0000_0000_0000 * w)
            &&& !load.is_finite() ==> load.is_infinite() && 101 * x + 50 * w >= w * pow2(2097)
        }),
{
    let cpu = record.cpu_time;
    let share = cpu.quotient(wall);
    let x = cpu.over() * pow2(1074);
    let w = wall.over();
    lemma_nearest_is_duration();
    lemma_quotient_is_near(cpu, wall);
    if share.is_finite() {
        lemma_product_is_near(share, 100);
        let load = share.times(100);
        let (q, h) = (share.over(), pow2(2097));
        if load.is_finite() {
            lemma_two_roundings(x, w, q, load.over());
        } else {
            assert(100 * (q * w) >= w * h) by (nonlinear_arith)
                requires
                    q * 100 >= h,
            ;
        }
    }
}

/// A CPU time of `k` times the wall time is a load of `k` hundred percent, for every whole `k`:
/// two cores that are busy all the time make 200.
#[verifier::spinoff_prover]
pub proof fn lemma_load_of_whole_cores(
    model: SamplerModel,
    record: BenchmarkRecord,
    wall: Quantity,
    k: nat,
)
    requires
        model.shows_record(record, wall),
        model.data_collected,
        record.cpu_time.is_finite(),
        wall.is_finite(),
        wall.exceeds(Quantity { bits: 0 }),
        record.cpu_time.over() == k * wall.over(),
        100 * k < 0x20_0000_0000_0000,
    ensures
        record.mean_load.is_finite(),
        record.mean_load.minus() == record.cpu_time.minus(),
        record.mean_load.over() == (100 * k) * pow2(1074),
{
    let g = pow2(1074);
    let w = wall.over();
    let cpu = record.cpu_time;
    lemma_nearest_is_duration();
    assert((k * w) * g == w * (k * g)) by (nonlinear_arith);
    lemma_nearest_is_exact(cpu.over(), w, k, 1074);
    lemma_quotient_is_near(cpu, wall);
    let share = cpu.quotient(wall);
    lemma_turning_keeps_the_value(nearest(cpu.over(), w));
    assert(((k * g) * 100) * g == g * ((100 * k) * g)) by (nonlinear_arith);
    lemma_nearest_is_exact(share.over() * 100, g, 100 * k, 1074);
    lemma_turning_keeps_the_value(nearest(share.over() * 100, g));
    lemma_product_is_near(share, 100);
}

/// The mean load where the times are not both finite: no wall time means no load, an infinite CPU
/// time over a finite wall time is an infinite load, a finite one over an infinite wall time is
/// none, and what cannot be told is no number.
#[verifier::spinoff_prover]
pub proof fn lemma_load_of_odd_times(model: SamplerModel, record: BenchmarkRecord, wall: Quantity)
    requires
        model.shows_record(record, wall),
        model.data_collected,
    ensures
        !wall.exceeds(Quantity { bits: 0 }) ==> record.mean_load.bits == 0,
        wall.exceeds(Quantity { bits: 0 }) && record.cpu_time.is_nan() ==> record.mean_load.is_nan(),
        wall.is_infinite() && !wall.minus() && record.cpu_time.is_infinite()
            ==> record.mean_load.is_nan(),
        wall.is_finite() && wall.exceeds(Quantity { bits: 0 }) && record.cpu_time.is_infinite()
            ==> record.mean_load.is_infinite() && record.mean_load.minus()
            == record.cpu_time.minus(),
        wall.is_infinite() && !wall.minus() && record.cpu_time.is_finite()
            ==> record.mean_load.magnitude() == 0,
{
    lemma_nearest_is_duration();
    lemma_turning_keeps_the_value(Quantity { bits: INFINITY });
    lemma_turning_keeps_the_value(Quantity { bits: 0 });
    let g = pow2(1074);
    assert(0 * g == 0);
    if wall.is_infinite() && !wall.minus() && record.cpu_time.is_finite() {
        let share = record.cpu_time.quotient(wall);
        assert(share.magnitude() == 0);
        assert(share.over() == 0) by {
            assert(share.steps() == 0);
            assert(0 * pow2(share.level()) == 0);
        }
        assert(g * (0 * pow2(0)) == 0);
        lemma_nearest_is_exact(0, g, 0, 0);
        let none = nearest(0, g);
        lemma_bits_order_values(none, Quantity::zero());
        assert(Quantity::zero().over() == 0) by {
            assert(Quantity::zero().steps() == 0);
            assert(0 * pow2(Quantity::zero().level()) == 0);
        }
        lemma_turning_keeps_the_value(none);
    }
}

/// Over the same wall time, more CPU time is never a smaller load, and a CPU time of at least the
/// wall time and a hundredth of it is a load above 100.
#[verifier::spinoff_prover]
pub proof fn lemma_more_cpu_time_is_no_less_load(
    model: SamplerModel,
    record: BenchmarkRecord,
    other: SamplerModel,
    busier: BenchmarkRecord,
    wall: Quantity,
)
    requires
        model.shows_record(record, wall),
        model.data_collected,
        other.shows_record(busier, wall),
        other.data_collected,
        wall.is_finite(),
        wall.exceeds(Quantity { bits: 0 }),
        record.cpu_time.is_finite(),
        busier.cpu_time.is_finite(),
        !record.cpu_time.minus(),
        !busier.cpu_time.minus(),
        record.cpu_time.over() <= busier.cpu_time.over(),
    ensures
        !record.mean_load.exceeds(busier.mean_load),
        100 * record.cpu_time.over() >= 101 * wall.over() ==> record.mean_load.exceeds(
            Quantity::of(100),
        ),
{
    let w = wall.over();
    lemma_nearest_is_duration();
    lemma_nearest_monotonic(record.cpu_time.over(), busier.cpu_time.over(), w);
    let (less, more) = (record.cpu_time.quotient(wall), busier.cpu_time.quotient(wall));
    if more.is_finite() {
        lemma_bits_order_values(less, more);
        assert(less.over() * 100 <= more.over() * 100);
        lemma_nearest_monotonic(less.over() * 100, more.over() * 100, pow2(1074));
    } else if less.is_finite() {
        lemma_nearest_monotonic(less.over() * 100, less.over() * 100, pow2(1074));
    }
    if 100 * record.cpu_time.over() >= 101 * w {
        lemma_load_times_wall_is_cpu_time(model, record, wall);
        lemma_integers_are_exact(100);
        let load = record.mean_load;
        if load.is_finite() {
            let g = pow2(1074);
            lemma2_to64();
            lemma_pow2_adds(64, 1010);
            lemma_pow2_pos(1010);
            let rest = pow2(1010);
            assert(g >= 0x1_0000_0000_0000_0000) by (nonlinear_arith)
                requires
                    g == 0x1_0000_0000_0000_0000 * rest,
                    rest > 0,
            ;
            let x = record.cpu_time.over() * g;
            assert(100 * x >= 101 * (w * g)) by (nonlinear_arith)
                requires
                    x == record.cpu_time.over() * g,
                    100 * record.cpu_time.over() >= 101 * w,
            ;
            assert(w * g >= 0x1_0000_0000_0000_0000 * w) by (nonlinear_arith)
                requires
                    g >= 0x1_0000_0000_0000_0000,
            ;
            if load.over() <= 100 * g {
                assert(load.over() * w <= 100 * (w * g)) by (nonlinear_arith)
                    requires
                        load.over() <= 100 * g,
                ;
                assert(false);
            }
            lemma_exceeds_compares_values(load, Quantity::of(100));
        }
    }
}

} // verus!
