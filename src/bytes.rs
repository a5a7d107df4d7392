//! Byte counts and byte rates, kept apart so that a count is never used
//! where a rate is expected.

use vstd::prelude::*;
use vstd::string::StringExecFns;

verus! {

/// Text that `byte_unit` renders for a number of bytes in the most
/// appropriate decimal unit (`"10 KB"` for 10000).
pub uninterp spec fn decimal_byte_text(n: u64) -> Seq<char>;

/// Relies on `byte_unit::Byte::from_u64` and
/// `Byte::get_appropriate_unit(UnitType::Decimal)`: the rendered text is a
/// function of the number of bytes alone.
#[verifier::external_body]
fn decimal_text(n: u64) -> (r: String)
    ensures
        r@ == decimal_byte_text(n),
{
    byte_unit::Byte::from_u64(n).get_appropriate_unit(byte_unit::UnitType::Decimal).to_string()
}

/// The largest of `0` and `v`, as an amount of bytes a text can show.
pub open spec fn shown_amount(v: int) -> u64 {
    if v <= 0 {
        0
    } else if v > u64::MAX {
        u64::MAX
    } else {
        v as u64
    }
}

/// A signed number of bytes.
#[derive(Clone, Copy, Debug, PartialEq, Eq, Structural)]
pub struct NumberOfBytes(pub i64);

impl View for NumberOfBytes {
    type V = int;

    open spec fn view(&self) -> int {
        self.0 as int
    }
}

impl NumberOfBytes {
    /// The count `count`.
    pub fn new(count: i64) -> (r: NumberOfBytes)
        ensures
            r@ == count,
    {
        NumberOfBytes(count)
    }

    /// The number of bytes.
    pub fn count(&self) -> (r: i64)
        ensures
            r == self@,
    {
        self.0
    }

    /// `self` rendered in a decimal unit; a negative count shows as zero.
    pub fn to_text(&self) -> (r: String)
        ensures
            r@ == decimal_byte_text(shown_amount(self@)),
    {
        let n: u64 = if self.0 <= 0 {
            0
        } else {
            self.0 as u64
        };
        decimal_text(n)
    }
}

impl From<i32> for NumberOfBytes {
    fn from(value: i32) -> (r: NumberOfBytes) {
        NumberOfBytes(value as i64)
    }
}

impl vstd::std_specs::convert::FromSpecImpl<i32> for NumberOfBytes {
    open spec fn obeys_from_spec() -> bool {
        true
    }

    open spec fn from_spec(v: i32) -> NumberOfBytes {
        NumberOfBytes(v as i64)
    }
}

impl core::ops::Add for NumberOfBytes {
    type Output = NumberOfBytes;

    fn add(self, rhs: NumberOfBytes) -> (r: NumberOfBytes) {
        NumberOfBytes(self.0 + rhs.0)
    }
}

impl vstd::std_specs::ops::AddSpecImpl for NumberOfBytes {
    open spec fn obeys_add_spec() -> bool {
        true
    }

    open spec fn add_req(self, rhs: NumberOfBytes) -> bool {
        i64::MIN <= self.0 + rhs.0 <= i64::MAX
    }

    open spec fn add_spec(self, rhs: NumberOfBytes) -> NumberOfBytes {
        NumberOfBytes((self.0 + rhs.0) as i64)
    }
}

impl core::ops::Sub for NumberOfBytes {
    type Output = NumberOfBytes;

    fn sub(self, rhs: NumberOfBytes) -> (r: NumberOfBytes) {
        NumberOfBytes(self.0 - rhs.0)
    }
}

impl vstd::std_specs::ops::SubSpecImpl for NumberOfBytes {
    open spec fn obeys_sub_spec() -> bool {
        true
    }

    open spec fn sub_req(self, rhs: NumberOfBytes) -> bool {
        i64::MIN <= self.0 - rhs.0 <= i64::MAX
    }

    open spec fn sub_spec(self, rhs: NumberOfBytes) -> NumberOfBytes {
        NumberOfBytes((self.0 - rhs.0) as i64)
    }
}

/// The whole number of bytes per second that `bytes` over `millis`
/// milliseconds amounts to, rounded toward zero; zero when no time passed.
pub open spec fn rate_of(bytes: int, millis: int) -> int {
    if millis <= 0 {
        0
    } else if bytes >= 0 {
        bytes * 1000 / millis
    } else {
        -((-bytes) * 1000 / millis)
    }
}

/// A throughput in whole bytes per second.  It is only made from a number
/// of bytes and the time over which they moved.
#[derive(Clone, Copy, Debug, PartialEq, Eq, Structural)]
pub struct BytesPerSecond(i128);

impl View for BytesPerSecond {
    type V = int;

    closed spec fn view(&self) -> int {
        self.0 as int
    }
}

impl BytesPerSecond {
    /// The rate of `bytes` moved over `duration_millis` milliseconds; a zero
    /// duration gives a zero rate.
    pub fn new(bytes: NumberOfBytes, duration_millis: u64) -> (r: BytesPerSecond)
        ensures
            r@ == rate_of(bytes@, duration_millis as int),
    {
        if duration_millis == 0 {
            return BytesPerSecond(0);
        }
        let magnitude: u128 = if bytes.0 >= 0 {
            bytes.0 as u128
        } else {
            (-(bytes.0 as i128)) as u128
        };
        assert(magnitude * 1000 <= 0x1_0000_0000_0000_0000 * 1000);
        let scaled: u128 = magnitude * 1000;
        let q: u128 = scaled / (duration_millis as u128);
        assert(q <= scaled) by (nonlinear_arith)
            requires
                q == scaled / (duration_millis as u128),
                duration_millis >= 1,
        ;
        if bytes.0 >= 0 {
            BytesPerSecond(q as i128)
        } else {
            BytesPerSecond(-(q as i128))
        }
    }

    /// Two rates of the same value are the same rate.
    pub proof fn lemma_view_determines(a: BytesPerSecond, b: BytesPerSecond)
        requires
            a@ == b@,
        ensures
            a == b,
    {
    }

    /// The rate of nothing moving.
    pub fn zero() -> (r: BytesPerSecond)
        ensures
            r@ == 0,
    {
        BytesPerSecond(0)
    }

    /// The number of bytes per second.
    pub fn per_second(&self) -> (r: i128)
        ensures
            r == self@,
    {
        self.0
    }

    /// `self` rendered in a decimal unit followed by `/s`; a negative rate
    /// shows as zero.
    pub fn to_text(&self) -> (r: String)
        ensures
            r@ == decimal_byte_text(shown_amount(self@)) + "/s"@,
    {
        let n: u64 = if self.0 <= 0 {
            0
        } else if self.0 > u64::MAX as i128 {
            u64::MAX
        } else {
            self.0 as u64
        };
        per_second_text(decimal_text(n))
    }
}

/// `amount` as a rate: followed by `/s`.
pub fn per_second_text(amount: String) -> (r: String)
    ensures
        r@ == amount@ + "/s"@,
{
    let mut text = amount;
    text.append("/s");
    text
}

} // verus!
