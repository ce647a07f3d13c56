//! Small string and arithmetic helpers exposed to embedding layers.

use vstd::prelude::*;
use vstd::string::StringExecFns;

verus! {

/// Builds the greeting line for `name`.
pub fn greet_internal(name: &str) -> (r: String)
    ensures
        r@ == "Hello, "@ + name@ + "! from Rust WebAssembly"@,
{
    let mut s = String::from_str("Hello, ");
    s.append(name);
    s.append("! from Rust WebAssembly");
    s
}

/// Adds two integers; the caller keeps the sum within `i32`.
pub fn add_internal(a: i32, b: i32) -> (r: i32)
    requires
        i32::MIN <= a + b <= i32::MAX,
    ensures
        r == a + b,
{
    a + b
}

/// A running total that callers feed increments into.
pub struct CalculatorInternal {
    value: i32,
}

impl CalculatorInternal {
    /// The current total.
    pub closed spec fn total(&self) -> int {
        self.value as int
    }

    /// Starts a calculator at zero.
    pub fn new() -> (r: CalculatorInternal)
        ensures
            r.total() == 0,
    {
        CalculatorInternal { value: 0 }
    }

    /// Adds `amount` to the total; the caller keeps the sum within `i32`.
    pub fn add(&mut self, amount: i32)
        requires
            i32::MIN <= old(self).total() + amount <= i32::MAX,
        ensures
            final(self).total() == old(self).total() + amount,
    {
        self.value = self.value + amount;
    }

    /// Reads the current total.
    pub fn get_value(&self) -> (r: i32)
        ensures
            r == self.total(),
    {
        self.value
    }
}

impl Default for CalculatorInternal {
    /// Same as `new`: a calculator at zero.
    fn default() -> (r: Self)
        ensures
            r.total() == 0,
    {
        CalculatorInternal::new()
    }
}

} // verus!
