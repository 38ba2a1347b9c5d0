use fvm_amt::gas::{milligas_to_gas, ExecutionError, Gas, GasCharge, GasTracker};
use fvm_shared::econ::TokenAmount;
use num_traits::Zero;

#[test]
fn basic_gas_tracker() {
    let mut t = GasTracker::new(Gas::new(20), Gas::new(10), Zero::zero());
    t.apply_charge(GasCharge::new("", Gas::new(5), Gas::zero())).unwrap();
    assert_eq!(t.gas_used(), Gas::new(15));
    t.apply_charge(GasCharge::new("", Gas::new(5), Gas::zero())).unwrap();
    assert_eq!(t.gas_used(), Gas::new(20));
    assert!(t.apply_charge(GasCharge::new("", Gas::new(1), Gas::zero())).is_err());
}

#[test]
fn milligas_to_gas_round() {
    assert_eq!(milligas_to_gas(100, false), 0);
    assert_eq!(milligas_to_gas(100, true), 1);
    assert_eq!(milligas_to_gas(-100, false), -1);
    assert_eq!(milligas_to_gas(-100, true), 0);
}

#[test]
fn gas_new_saturates() {
    assert_eq!(Gas::new(1).as_milligas(), 1000);
    assert_eq!(Gas::new(-2).as_milligas(), -2000);
    assert!(Gas::new(i64::MAX).is_saturated());
    assert_eq!(Gas::new(i64::MIN).as_milligas(), i64::MIN);
    assert!(!Gas::new(5).is_saturated());
}

#[test]
fn gas_rounding_of_exact_and_fractional() {
    assert_eq!(Gas::from_milligas(2000).round_up(), 2);
    assert_eq!(Gas::from_milligas(2000).round_down(), 2);
    assert_eq!(Gas::from_milligas(2001).round_up(), 3);
    assert_eq!(Gas::from_milligas(2001).round_down(), 2);
    assert_eq!(Gas::from_milligas(-2001).round_up(), -2);
    assert_eq!(Gas::from_milligas(-2001).round_down(), -3);
    assert_eq!(Gas::from_milligas(i64::MAX).round_up(), i64::MAX / 1000 + 1);
    assert_eq!(Gas::from_milligas(i64::MIN).round_down(), i64::MIN / 1000 - 1);
}

#[test]
fn gas_arithmetic_saturates() {
    let max = Gas::from_milligas(i64::MAX);
    let min = Gas::from_milligas(i64::MIN);
    assert_eq!(max.plus(Gas::from_milligas(1)), max);
    assert_eq!(min.minus(Gas::from_milligas(1)), min);
    assert_eq!(max.times(2), max);
    assert_eq!(max.times(-2), min);
    assert_eq!(Gas::from_milligas(7).plus(Gas::from_milligas(5)).as_milligas(), 12);
    assert_eq!(Gas::from_milligas(7).minus(Gas::from_milligas(5)).as_milligas(), 2);
    assert_eq!(Gas::from_milligas(7).times(-3).as_milligas(), -21);
    assert!(Gas::zero().is_zero());
    assert!(!Gas::from_milligas(1).is_zero());
}

#[test]
fn gas_text() {
    assert_eq!(Gas::zero().to_string(), "0");
    assert_eq!(Gas::from_milligas(1500).to_string(), "1.500");
    assert_eq!(Gas::from_milligas(1005).to_string(), "1.005");
    assert_eq!(Gas::from_milligas(7).to_string(), "0.007");
    assert_eq!(Gas::new(3).to_string(), "3.000");
}

#[test]
fn gas_charge_total() {
    let c = GasCharge::new("x", Gas::new(2), Gas::new(3));
    assert_eq!(c.total(), Gas::new(5));
    assert_eq!(c.name, "x");
    let big = GasCharge::new("y", Gas::from_milligas(i64::MAX), Gas::new(1));
    assert!(big.total().is_saturated());
}

#[test]
fn tracker_out_of_gas_pins_used_to_limit() {
    let mut t = GasTracker::new(Gas::new(10), Gas::new(0), TokenAmount::from_atto(7));
    assert_eq!(t.charge_gas("a", Gas::new(4)), Ok(()));
    assert_eq!(t.gas_available(), Gas::new(6));
    assert_eq!(t.charge_gas("b", Gas::new(7)), Err(ExecutionError::OutOfGas));
    assert_eq!(t.gas_used(), Gas::new(10));
    assert_eq!(t.gas_limit(), Gas::new(10));
    assert_eq!(t.gas_available(), Gas::zero());
    assert_eq!(t.gas_premium(), TokenAmount::from_atto(7));
}

#[test]
fn tracker_exact_limit_is_accepted() {
    let mut t = GasTracker::new(Gas::new(10), Gas::new(0), TokenAmount::zero());
    assert_eq!(t.charge_gas("a", Gas::new(10)), Ok(()));
    assert_eq!(t.gas_used(), Gas::new(10));
    assert_eq!(t.charge_gas("b", Gas::from_milligas(1)), Err(ExecutionError::OutOfGas));
}

#[test]
fn tracker_trace_records_and_drains() {
    let mut t = GasTracker::new(Gas::new(10), Gas::new(0), TokenAmount::zero());
    t.charge_gas("untraced", Gas::new(1)).unwrap();
    assert!(t.drain_trace().is_empty());
    t.enable_tracing();
    t.charge_gas("first", Gas::new(1)).unwrap();
    t.apply_charge(GasCharge::new("second", Gas::new(1), Gas::new(2))).unwrap();
    assert!(t.charge_gas("third", Gas::new(100)).is_err());
    let trace = t.drain_trace();
    assert_eq!(trace.len(), 3);
    assert_eq!(trace[0].name, "first");
    assert_eq!(trace[0].compute_gas, Gas::new(1));
    assert_eq!(trace[0].storage_gas, Gas::zero());
    assert_eq!(trace[1].name, "second");
    assert_eq!(trace[1].total(), Gas::new(3));
    assert_eq!(trace[2].name, "third");
    assert!(t.drain_trace().is_empty());
    t.charge_gas("fourth", Gas::zero()).unwrap();
    assert_eq!(t.drain_trace().len(), 1);
}

#[test]
fn gas_debug_text() {
    assert_eq!(Gas::zero().to_debug_string(), "Gas(0)");
    assert_eq!(Gas::from_milligas(1500).to_debug_string(), "Gas(1.500)");
    assert_eq!(Gas::from_milligas(20).to_debug_string(), "Gas(0.020)");
}

#[test]
fn gas_operators_saturate() {
    let max = Gas::from_milligas(i64::MAX);
    assert_eq!(max + Gas::new(1), max);
    assert_eq!(Gas::new(2) + Gas::new(3), Gas::new(5));
    assert_eq!(Gas::new(2) - Gas::new(3), Gas::new(-1));
    assert_eq!(Gas::from_milligas(i64::MIN) - Gas::new(1), Gas::from_milligas(i64::MIN));
    assert_eq!(Gas::new(2) * 3i64, Gas::new(6));
    assert_eq!(Gas::new(2) * -3i32, Gas::new(-6));
    assert_eq!(max * 2i32, max);
    let mut g = Gas::new(1);
    g += Gas::new(2);
    assert_eq!(g, Gas::new(3));
    g -= Gas::new(5);
    assert_eq!(g, Gas::new(-2));
    assert!(Gas::new(1) < Gas::new(2));
}

#[test]
fn gas_text_of_negative_quantities() {
    assert_eq!(Gas::from_milligas(-1500).to_string(), "-1.-500");
    assert_eq!(Gas::new(-2).to_string(), "-2.000");
}
