//! Gas accounting in milligas, with saturating arithmetic throughout.

use fvm_shared::econ::TokenAmount;
use vstd::prelude::*;
use vstd::string::StringExecFns;
use vstd::std_specs::ops::{AddSpecImpl, MulSpecImpl, SubSpecImpl};

verus! {

/// Number of milligas in one unit of gas.
pub const MILLIGAS_PRECISION: i64 = 1000;

/// The sum `a + b`, clamped to the range of `i64`.
pub open spec fn saturating_sum(a: int, b: int) -> int {
    clamp_i64(a + b)
}

/// The difference `a - b`, clamped to the range of `i64`.
pub open spec fn saturating_difference(a: int, b: int) -> int {
    clamp_i64(a - b)
}

/// The product `a * b`, clamped to the range of `i64`.
pub open spec fn saturating_product(a: int, b: int) -> int {
    clamp_i64(a * b)
}

/// `x` clamped to the range of `i64`.
pub open spec fn clamp_i64(x: int) -> int {
    if x > i64::MAX {
        i64::MAX as int
    } else if x < i64::MIN {
        i64::MIN as int
    } else {
        x
    }
}

/// Whole gas units in `milligas`: the quotient rounded towards positive infinity when
/// `round_up` holds and towards negative infinity otherwise.
pub open spec fn whole_gas(milligas: int, round_up: bool) -> int {
    if milligas % 1000 == 0 {
        milligas / 1000
    } else if round_up {
        milligas / 1000 + 1
    } else {
        milligas / 1000
    }
}

fn sat_add(a: i64, b: i64) -> (r: i64)
    ensures
        r == saturating_sum(a as int, b as int),
{
    let wide: i128 = a as i128 + b as i128;
    narrow(wide)
}

fn sat_sub(a: i64, b: i64) -> (r: i64)
    ensures
        r == saturating_difference(a as int, b as int),
{
    let wide: i128 = a as i128 - b as i128;
    narrow(wide)
}

fn sat_mul(a: i64, b: i64) -> (r: i64)
    ensures
        r == saturating_product(a as int, b as int),
{
    assert(-0x4000_0000_0000_0000_0000_0000_0000_0000 <= (a as int) * (b as int)
        <= 0x4000_0000_0000_0000_0000_0000_0000_0000) by (nonlinear_arith)
        requires
            -0x8000_0000_0000_0000 <= a <= 0x7fff_ffff_ffff_ffff,
            -0x8000_0000_0000_0000 <= b <= 0x7fff_ffff_ffff_ffff,
    ;
    let wide: i128 = (a as i128) * (b as i128);
    narrow(wide)
}

fn narrow(wide: i128) -> (r: i64)
    ensures
        r == clamp_i64(wide as int),
{
    if wide > i64::MAX as i128 {
        i64::MAX
    } else if wide < i64::MIN as i128 {
        i64::MIN
    } else {
        wide as i64
    }
}

/// Converts fractional gas units into whole gas units, rounding up or down.
pub fn milligas_to_gas(milligas: i64, round_up: bool) -> (gas: i64)
    ensures
        gas == whole_gas(milligas as int, round_up),
{
    let mut div_result: i64 = milligas / MILLIGAS_PRECISION;
    if milligas > 0 && round_up && milligas % MILLIGAS_PRECISION != 0 {
        div_result = sat_add(div_result, 1);
    } else if milligas < 0 && !round_up && milligas % MILLIGAS_PRECISION != 0 {
        div_result = sat_sub(div_result, 1);
    }
    div_result
}

/// A typesafe quantity of gas, stored as milligas. All arithmetic saturates at the ends of
/// the `i64` range.
#[derive(Hash, Eq, PartialEq, Ord, PartialOrd, Copy, Clone, Debug, Structural)]
pub struct Gas(i64);

impl View for Gas {
    type V = int;

    /// The quantity in milligas.
    closed spec fn view(&self) -> int {
        self.0 as int
    }
}

/// A name for the text that renders a quantity of gas from its integral and fractional
/// parts: the integral part, a dot, and the fractional part padded with zeros to three
/// places.
pub uninterp spec fn gas_text(integral: int, fractional: int) -> Seq<char>;

/// Calls `format!` with the pattern `{integral}.{fractional:03}`; the result is the text
/// named by [`gas_text`].
#[verifier::external_body]
fn format_parts(integral: i64, fractional: i64) -> (text: String)
    ensures
        text@ == gas_text(integral as int, fractional as int),
{
    format!("{integral}.{fractional:03}")
}

/// The integral part of a quantity of milligas, as truncating division gives it.
pub open spec fn integral_part(milligas: int) -> int {
    if milligas >= 0 {
        milligas / 1000
    } else {
        -((-milligas) / 1000)
    }
}

/// The fractional part of a quantity of milligas; it has the sign of the quantity.
pub open spec fn fractional_part(milligas: int) -> int {
    milligas - 1000 * integral_part(milligas)
}

impl Gas {
    /// The quantity of `milligas` milligas, which is in the range of `i64`.
    pub closed spec fn of(milligas: int) -> Gas {
        Gas(milligas as i64)
    }

    /// Constructs a `Gas` from milligas.
    pub fn from_milligas(milligas: i64) -> (gas: Gas)
        ensures
            gas@ == milligas,
    {
        Gas(milligas)
    }

    /// Constructs a `Gas` from whole gas units, saturating where the scaled value leaves
    /// the range of `i64`.
    pub fn new(gas: i64) -> (scaled: Gas)
        ensures
            scaled@ == saturating_product(gas as int, 1000),
    {
        Gas(sat_mul(gas, MILLIGAS_PRECISION))
    }

    /// The zero quantity.
    pub fn zero() -> (gas: Gas)
        ensures
            gas@ == 0,
    {
        Gas(0)
    }

    /// Whether this is the zero quantity.
    pub fn is_zero(&self) -> (b: bool)
        ensures
            b == (self@ == 0),
    {
        self.0 == 0
    }

    /// Whether the quantity sits at the upper end of the range.
    pub fn is_saturated(&self) -> (b: bool)
        ensures
            b == (self@ == i64::MAX),
    {
        self.0 == i64::MAX
    }

    /// The quantity in whole gas units, the fractional part rounded up.
    pub fn round_up(&self) -> (gas: i64)
        ensures
            gas == whole_gas(self@, true),
    {
        milligas_to_gas(self.0, true)
    }

    /// The quantity in whole gas units, the fractional part rounded down.
    pub fn round_down(&self) -> (gas: i64)
        ensures
            gas == whole_gas(self@, false),
    {
        milligas_to_gas(self.0, false)
    }

    /// The quantity in milligas, without loss of precision.
    pub fn as_milligas(&self) -> (milligas: i64)
        ensures
            milligas == self@,
    {
        self.0
    }

    /// The saturating sum of two quantities.
    pub fn plus(self, rhs: Gas) -> (sum: Gas)
        ensures
            sum@ == saturating_sum(self@, rhs@),
    {
        Gas(sat_add(self.0, rhs.0))
    }

    /// The saturating difference of two quantities.
    pub fn minus(self, rhs: Gas) -> (difference: Gas)
        ensures
            difference@ == saturating_difference(self@, rhs@),
    {
        Gas(sat_sub(self.0, rhs.0))
    }

    /// The quantity scaled by `rhs`, saturating.
    pub fn times(self, rhs: i64) -> (product: Gas)
        ensures
            product@ == saturating_product(self@, rhs as int),
    {
        Gas(sat_mul(self.0, rhs))
    }

    /// The quantity as it is shown when debugging: its text between `Gas(` and `)`.
    pub fn to_debug_string(&self) -> (text: String)
        ensures
            self@ == 0 ==> text@ == "Gas("@ + "0"@ + ")"@,
            self@ != 0 ==> text@ == "Gas("@ + gas_text(
                integral_part(self@),
                fractional_part(self@),
            ) + ")"@,
    {
        let inner = self.to_string();
        "Gas(".to_owned().concat(inner.as_str()).concat(")")
    }

    /// The quantity as text: `0` for zero, else the integral part, a dot and the
    /// fractional part in three places.
    pub fn to_string(&self) -> (text: String)
        ensures
            self@ == 0 ==> text@ == "0"@,
            self@ != 0 ==> text@ == gas_text(integral_part(self@), fractional_part(self@)),
    {
        if self.0 == 0 {
            "0".to_owned()
        } else {
            let integral: i64 = self.0 / MILLIGAS_PRECISION;
            let fractional: i64 = self.0 % MILLIGAS_PRECISION;
            format_parts(integral, fractional)
        }
    }
}

impl core::ops::Add for Gas {
    type Output = Gas;

    /// The saturating sum.
    fn add(self, rhs: Gas) -> (sum: Gas) {
        self.plus(rhs)
    }
}

impl AddSpecImpl for Gas {
    open spec fn obeys_add_spec() -> bool {
        true
    }

    open spec fn add_req(self, rhs: Gas) -> bool {
        true
    }

    open spec fn add_spec(self, rhs: Gas) -> Gas {
        Gas::of(saturating_sum(self@, rhs@))
    }
}

impl core::ops::Sub for Gas {
    type Output = Gas;

    /// The saturating difference.
    fn sub(self, rhs: Gas) -> (difference: Gas) {
        self.minus(rhs)
    }
}

impl SubSpecImpl for Gas {
    open spec fn obeys_sub_spec() -> bool {
        true
    }

    open spec fn sub_req(self, rhs: Gas) -> bool {
        true
    }

    open spec fn sub_spec(self, rhs: Gas) -> Gas {
        Gas::of(saturating_difference(self@, rhs@))
    }
}

impl core::ops::Mul<i64> for Gas {
    type Output = Gas;

    /// The saturating product.
    fn mul(self, rhs: i64) -> (product: Gas) {
        self.times(rhs)
    }
}

impl MulSpecImpl<i64> for Gas {
    open spec fn obeys_mul_spec() -> bool {
        true
    }

    open spec fn mul_req(self, rhs: i64) -> bool {
        true
    }

    open spec fn mul_spec(self, rhs: i64) -> Gas {
        Gas::of(saturating_product(self@, rhs as int))
    }
}

impl core::ops::Mul<i32> for Gas {
    type Output = Gas;

    /// The saturating product.
    fn mul(self, rhs: i32) -> (product: Gas) {
        self.times(rhs as i64)
    }
}

impl MulSpecImpl<i32> for Gas {
    open spec fn obeys_mul_spec() -> bool {
        true
    }

    open spec fn mul_req(self, rhs: i32) -> bool {
        true
    }

    open spec fn mul_spec(self, rhs: i32) -> Gas {
        Gas::of(saturating_product(self@, rhs as int))
    }
}

impl core::ops::AddAssign for Gas {
    /// Adds `rhs`, saturating.
    fn add_assign(&mut self, rhs: Gas)
        ensures
            final(self)@ == saturating_sum(old(self)@, rhs@),
    {
        self.0 = sat_add(self.0, rhs.0);
    }
}

impl core::ops::SubAssign for Gas {
    /// Takes `rhs` away, saturating.
    fn sub_assign(&mut self, rhs: Gas)
        ensures
            final(self)@ == saturating_difference(old(self)@, rhs@),
    {
        self.0 = sat_sub(self.0, rhs.0);
    }
}

/// A single charge against the gas limit, split into its compute and storage parts.
#[derive(Clone, Debug)]
pub struct GasCharge {
    pub name: String,
    pub compute_gas: Gas,
    pub storage_gas: Gas,
}

impl GasCharge {
    /// A charge under `name` with the given parts.
    pub fn new(name: &str, compute_gas: Gas, storage_gas: Gas) -> (charge: GasCharge)
        ensures
            charge.name@ == name@,
            charge.compute_gas == compute_gas,
            charge.storage_gas == storage_gas,
    {
        GasCharge { name: name.to_owned(), compute_gas, storage_gas }
    }

    /// The total of a charge: the saturating sum of its parts.
    pub open spec fn spec_total(&self) -> int {
        saturating_sum(self.compute_gas@, self.storage_gas@)
    }

    /// The total gas of this charge.
    pub fn total(&self) -> (gas: Gas)
        ensures
            gas@ == self.spec_total(),
    {
        self.compute_gas + self.storage_gas
    }
}

/// Why a charge was refused.
#[derive(Clone, Copy, Debug, PartialEq, Eq, Structural)]
pub enum ExecutionError {
    /// The charge would take the gas used past the limit.
    OutOfGas,
}

/// An amount of native tokens. The tracker carries it through and never reads it.
#[verifier::external_type_specification]
#[verifier::external_body]
pub struct ExTokenAmount(TokenAmount);

/// `<TokenAmount as Clone>::clone` is derived: the copy is the same amount.
pub assume_specification[ <TokenAmount as Clone>::clone ](amount: &TokenAmount) -> (copy:
    TokenAmount)
    ensures
        copy == *amount,
;

/// Tracks the gas used by one message against its limit.
pub struct GasTracker {
    gas_limit: Gas,
    gas_used: Gas,
    gas_premium: TokenAmount,
    trace: Option<Vec<GasCharge>>,
}

/// The gas used after charging `to_use` on top of `used` under `limit`: the saturating sum,
/// capped at the limit.
pub open spec fn used_after(limit: int, used: int, to_use: int) -> int {
    if saturating_sum(used, to_use) > limit {
        limit
    } else {
        saturating_sum(used, to_use)
    }
}

impl GasTracker {
    /// The limit, in milligas.
    pub closed spec fn limit(&self) -> int {
        self.gas_limit@
    }

    /// The gas used so far, in milligas.
    pub closed spec fn used(&self) -> int {
        self.gas_used@
    }

    /// The premium this tracker was made with.
    pub closed spec fn premium(&self) -> TokenAmount {
        self.gas_premium
    }

    /// Whether charges are being recorded.
    pub closed spec fn tracing(&self) -> bool {
        self.trace is Some
    }

    /// The charges recorded since tracing was enabled or the trace was last drained;
    /// empty while tracing is off.
    pub closed spec fn recorded(&self) -> Seq<GasCharge> {
        match self.trace {
            Some(t) => t@,
            None => Seq::empty(),
        }
    }

    /// A tracker with the given limit, the gas already used and the premium; tracing is off.
    pub fn new(gas_limit: Gas, gas_used: Gas, gas_premium: TokenAmount) -> (tracker: GasTracker)
        ensures
            tracker.limit() == gas_limit@,
            tracker.used() == gas_used@,
            tracker.premium() == gas_premium,
            !tracker.tracing(),
    {
        GasTracker { gas_limit, gas_used, gas_premium, trace: None }
    }

    /// Starts recording charges, discarding what was recorded before.
    pub fn enable_tracing(&mut self)
        ensures
            final(self).tracing(),
            final(self).recorded() == Seq::<GasCharge>::empty(),
            final(self).limit() == old(self).limit(),
            final(self).used() == old(self).used(),
            final(self).premium() == old(self).premium(),
    {
        self.trace = Some(Vec::new());
    }

    fn charge_gas_inner(&mut self, to_use: Gas) -> (res: Result<(), ExecutionError>)
        ensures
            final(self).used() == used_after(old(self).limit(), old(self).used(), to_use@),
            res is Err <==> saturating_sum(old(self).used(), to_use@) > old(self).limit(),
            final(self).limit() == old(self).limit(),
            final(self).premium() == old(self).premium(),
            final(self).trace == old(self).trace,
    {
        self.gas_used = self.gas_used + to_use;
        if self.gas_used.0 > self.gas_limit.0 {
            self.gas_used = self.gas_limit;
            Err(ExecutionError::OutOfGas)
        } else {
            Ok(())
        }
    }

    /// Consumes `to_use` gas under `name`. Fails with `OutOfGas`, leaving the gas used at
    /// the limit, exactly when the saturating sum of the gas used and `to_use` exceeds the
    /// limit. While tracing, the charge is recorded either way, as a compute charge.
    pub fn charge_gas(&mut self, name: &str, to_use: Gas) -> (res: Result<(), ExecutionError>)
        ensures
            final(self).used() == used_after(old(self).limit(), old(self).used(), to_use@),
            res is Err <==> saturating_sum(old(self).used(), to_use@) > old(self).limit(),
            final(self).limit() == old(self).limit(),
            final(self).premium() == old(self).premium(),
            final(self).tracing() == old(self).tracing(),
            !old(self).tracing() ==> final(self).recorded() == old(self).recorded(),
            old(self).tracing() ==> {
                &&& final(self).recorded().len() == old(self).recorded().len() + 1
                &&& final(self).recorded().drop_last() == old(self).recorded()
                &&& final(self).recorded().last().name@ == name@
                &&& final(self).recorded().last().compute_gas == to_use
                &&& final(self).recorded().last().storage_gas@ == 0
            },
    {
        let res = self.charge_gas_inner(to_use);
        self.record(GasCharge::new(name, to_use, Gas::zero()));
        res
    }

    /// Applies `charge`, consuming its total. Fails with `OutOfGas`, leaving the gas used
    /// at the limit, exactly when the saturating sum of the gas used and the total exceeds
    /// the limit. While tracing, the charge is recorded either way.
    pub fn apply_charge(&mut self, charge: GasCharge) -> (res: Result<(), ExecutionError>)
        ensures
            final(self).used() == used_after(
                old(self).limit(),
                old(self).used(),
                charge.spec_total(),
            ),
            res is Err <==> saturating_sum(old(self).used(), charge.spec_total()) > old(
                self,
            ).limit(),
            final(self).limit() == old(self).limit(),
            final(self).premium() == old(self).premium(),
            final(self).tracing() == old(self).tracing(),
            !old(self).tracing() ==> final(self).recorded() == old(self).recorded(),
            old(self).tracing() ==> final(self).recorded() == old(self).recorded().push(charge),
    {
        let res = self.charge_gas_inner(charge.total());
        self.record(charge);
        res
    }

    fn record(&mut self, charge: GasCharge)
        ensures
            final(self).gas_limit == old(self).gas_limit,
            final(self).gas_used == old(self).gas_used,
            final(self).gas_premium == old(self).gas_premium,
            final(self).tracing() == old(self).tracing(),
            !old(self).tracing() ==> final(self).recorded() == old(self).recorded(),
            old(self).tracing() ==> final(self).recorded() == old(self).recorded().push(charge),
    {
        match self.trace.take() {
            Some(mut trace) => {
                trace.push(charge);
                self.trace = Some(trace);
            },
            None => {},
        }
    }

    /// The most gas this message may use.
    pub fn gas_limit(&self) -> (gas: Gas)
        ensures
            gas@ == self.limit(),
    {
        self.gas_limit
    }

    /// The gas used so far.
    pub fn gas_used(&self) -> (gas: Gas)
        ensures
            gas@ == self.used(),
    {
        self.gas_used
    }

    /// The gas still available: the saturating difference of the limit and the gas used.
    pub fn gas_available(&self) -> (gas: Gas)
        ensures
            gas@ == saturating_difference(self.limit(), self.used()),
    {
        self.gas_limit - self.gas_used
    }

    /// The gas premium.
    pub fn gas_premium(&self) -> (premium: TokenAmount)
        ensures
            premium == self.premium(),
    {
        self.gas_premium.clone()
    }

    /// Hands out the recorded charges, oldest first, and leaves the record empty. Tracing
    /// stays as it was.
    pub fn drain_trace(&mut self) -> (charges: Vec<GasCharge>)
        ensures
            charges@ == old(self).recorded(),
            final(self).recorded() == Seq::<GasCharge>::empty(),
            final(self).tracing() == old(self).tracing(),
            final(self).limit() == old(self).limit(),
            final(self).used() == old(self).used(),
            final(self).premium() == old(self).premium(),
    {
        match self.trace.take() {
            Some(trace) => {
                self.trace = Some(Vec::new());
                trace
            },
            None => Vec::new(),
        }
    }
}

} // verus!
