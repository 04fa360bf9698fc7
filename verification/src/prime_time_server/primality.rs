//! Primality of the numbers carried by requests.

use vstd::prelude::*;

verus! {

/// The number of a request, as far as primality depends on it: a
/// non-negative integer that fits in a `u64`, a negative integer that fits
/// in an `i64`, or any other JSON number (one with a fractional part, or an
/// integer beyond those ranges, whose exact value this model does not keep).
#[derive(PartialEq, Eq, Structural, Debug, Clone, Copy)]
pub enum JsonNumber {
    /// A non-negative integer in the `u64` range.
    PosInt(u64),
    /// A negative integer in the `i64` range.
    NegInt(i64),
    /// Any other number: it is answered as not prime.
    Float,
}

impl From<i64> for JsonNumber {
    /// The number of an `i64` integer.
    fn from(v: i64) -> (number: JsonNumber)
        ensures
            denotes(number, v as int),
    {
        if v >= 0 {
            JsonNumber::PosInt(v as u64)
        } else {
            JsonNumber::NegInt(v)
        }
    }
}

impl vstd::std_specs::convert::FromSpecImpl<i64> for JsonNumber {
    open spec fn obeys_from_spec() -> bool {
        true
    }

    open spec fn from_spec(v: i64) -> JsonNumber {
        if v >= 0 {
            JsonNumber::PosInt(v as u64)
        } else {
            JsonNumber::NegInt(v)
        }
    }
}

impl From<i32> for JsonNumber {
    /// The number of an `i32` integer.
    fn from(v: i32) -> (number: JsonNumber)
        ensures
            denotes(number, v as int),
    {
        if v >= 0 {
            JsonNumber::PosInt(v as u64)
        } else {
            JsonNumber::NegInt(v as i64)
        }
    }
}

impl vstd::std_specs::convert::FromSpecImpl<i32> for JsonNumber {
    open spec fn obeys_from_spec() -> bool {
        true
    }

    open spec fn from_spec(v: i32) -> JsonNumber {
        if v >= 0 {
            JsonNumber::PosInt(v as u64)
        } else {
            JsonNumber::NegInt(v as i64)
        }
    }
}

impl From<u64> for JsonNumber {
    /// The number of a `u64` integer.
    fn from(v: u64) -> (number: JsonNumber)
        ensures
            denotes(number, v as int),
    {
        JsonNumber::PosInt(v)
    }
}

impl vstd::std_specs::convert::FromSpecImpl<u64> for JsonNumber {
    open spec fn obeys_from_spec() -> bool {
        true
    }

    open spec fn from_spec(v: u64) -> JsonNumber {
        JsonNumber::PosInt(v)
    }
}

/// `number` stands for the integer `v`: it is an integer variant holding
/// exactly that value, negative ones in `NegInt` and the others in `PosInt`.
pub open spec fn denotes(number: JsonNumber, v: int) -> bool {
    match number {
        JsonNumber::PosInt(u) => v >= 0 && u as int == v,
        JsonNumber::NegInt(i) => v < 0 && i as int == v,
        JsonNumber::Float => false,
    }
}

/// `d` divides `n`.
pub open spec fn divides(d: int, n: int) -> bool {
    n % d == 0
}

/// `n` is a prime number: greater than one, with no divisor strictly
/// between one and itself.
pub open spec fn is_prime_int(n: int) -> bool {
    &&& n > 1
    &&& forall|d: int| 2 <= d < n ==> !#[trigger] divides(d, n)
}

/// A request's number is prime: it is an integer in the `u64` or `i64`
/// range and that integer is prime. Numbers with a fractional part are not
/// prime. Integers beyond those ranges are not kept exactly, so this model
/// cannot tell whether they are prime and answers false for them.
pub open spec fn number_is_prime(number: JsonNumber) -> bool {
    match number {
        JsonNumber::PosInt(v) => is_prime_int(v as int),
        JsonNumber::NegInt(v) => is_prime_int(v as int),
        JsonNumber::Float => false,
    }
}

/// A positive `n` with `i * i > n` (expressed as `i > n / i`) that has a
/// divisor `d` with `i <= d < n` also has a divisor `e` with `2 <= e < i`:
/// the cofactor `n / d`.
proof fn lemma_small_cofactor(n: int, i: int, d: int) -> (e: int)
    requires
        2 <= i,
        n > 1,
        i > n / i,
        i <= d < n,
        divides(d, n),
    ensures
        2 <= e < i,
        divides(e, n),
{
    let e = n / d;
    vstd::arithmetic::div_mod::lemma_fundamental_div_mod(n, d);
    vstd::arithmetic::div_mod::lemma_fundamental_div_mod(n, i);
    assert(n == d * e);
    assert(e >= 0) by (nonlinear_arith)
        requires
            n == d * e,
            n > 1,
            d > 0,
    ;
    assert(e >= 2) by (nonlinear_arith)
        requires
            n == d * e,
            d < n,
            d > 0,
            e >= 0,
    ;
    assert(i * i > n) by (nonlinear_arith)
        requires
            n == i * (n / i) + n % i,
            n % i < i,
            n / i < i,
            n / i >= 0,
            i >= 2,
    ;
    assert(e < i) by (nonlinear_arith)
        requires
            n == d * e,
            d >= i,
            i * i > n,
            i >= 2,
            e >= 0,
    ;
    vstd::arithmetic::div_mod::lemma_mod_multiples_basic(d, e);
    assert(d * e == e * d) by (nonlinear_arith);
    e
}

/// With `2 <= i <= n / i`, the integer `i` lies strictly below `n`.
proof fn lemma_below(n: int, i: int)
    requires
        2 <= i,
        i <= n / i,
        n > 1,
    ensures
        i < n,
{
    vstd::arithmetic::div_mod::lemma_fundamental_div_mod(n, i);
    assert(i < n) by (nonlinear_arith)
        requires
            n == i * (n / i) + n % i,
            n % i >= 0,
            n / i >= i,
            i >= 2,
    ;
}

/// Tells whether an unsigned integer is prime, by trial division up to its
/// square root.
pub fn is_prime_u64(m: u64) -> (prime: bool)
    ensures
        prime == is_prime_int(m as int),
        prime <==> m > 1 && forall|d: int| 2 <= d < m ==> !#[trigger] divides(d, m as int),
{
    if m <= 1 {
        return false;
    }
    let mut i: u64 = 2;
    while i <= m / i
        invariant
            m > 1,
            2 <= i <= m,
            forall|d: int| 2 <= d < i ==> !#[trigger] divides(d, m as int),
        decreases m - i,
    {
        proof {
            lemma_below(m as int, i as int);
        }
        if m % i == 0 {
            assert(divides(i as int, m as int));
            return false;
        }
        i = i + 1;
    }
    assert forall|d: int| 2 <= d < m implies !#[trigger] divides(d, m as int) by {
        if d >= i && divides(d, m as int) {
            let e = lemma_small_cofactor(m as int, i as int, d);
            assert(!divides(e, m as int));
        }
    }
    true
}

/// Tells whether the number of a request is prime. Integers are tested by
/// trial division up to their square root; any other number is not prime.
pub fn is_prime(number: &JsonNumber) -> (prime: bool)
    ensures
        prime == number_is_prime(*number),
        forall|v: int| denotes(*number, v) ==> (prime <==> v > 1 && forall|d: int|
            2 <= d < v ==> !#[trigger] divides(d, v)),
        *number is Float ==> !prime,
{
    match number {
        JsonNumber::PosInt(m) => is_prime_u64(*m),
        JsonNumber::NegInt(n) => {
            if *n <= 1 {
                false
            } else {
                is_prime_u64(*n as u64)
            }
        },
        JsonNumber::Float => false,
    }
}

/// Primality as it is answered, read off the number itself: a number is
/// prime exactly when it holds an integer greater than one that no integer
/// strictly between one and itself divides. So a negative number, 0, 1 and
/// any non-integer are never prime.
pub proof fn lemma_number_is_prime_meaning(number: JsonNumber)
    ensures
        number_is_prime(number) == match number {
            JsonNumber::PosInt(u) => u > 1 && forall|d: int|
                2 <= d < u ==> !#[trigger] divides(d, u as int),
            JsonNumber::NegInt(i) => i > 1 && forall|d: int|
                2 <= d < i ==> !#[trigger] divides(d, i as int),
            JsonNumber::Float => false,
        },
        number matches JsonNumber::NegInt(i) && i < 0 ==> !number_is_prime(number),
        forall|v: int| denotes(number, v) ==> (number_is_prime(number) <==> v > 1 && forall|d: int|
            2 <= d < v ==> !#[trigger] divides(d, v)),
        number is Float ==> !number_is_prime(number),
{
}

/// Building a number from an `i32` keeps its value, sign included, so the
/// number is prime exactly when the integer is.
pub proof fn lemma_from_i32_keeps_value(v: i32)
    ensures
        denotes(<JsonNumber as vstd::std_specs::convert::FromSpec<i32>>::from_spec(v), v as int),
        number_is_prime(<JsonNumber as vstd::std_specs::convert::FromSpec<i32>>::from_spec(v))
            <==> v > 1 && forall|d: int| 2 <= d < v ==> !#[trigger] divides(d, v as int),
{
}

/// Building a number from an `i64` keeps its value, sign included, so the
/// number is prime exactly when the integer is.
pub proof fn lemma_from_i64_keeps_value(v: i64)
    ensures
        denotes(<JsonNumber as vstd::std_specs::convert::FromSpec<i64>>::from_spec(v), v as int),
        number_is_prime(<JsonNumber as vstd::std_specs::convert::FromSpec<i64>>::from_spec(v))
            <==> v > 1 && forall|d: int| 2 <= d < v ==> !#[trigger] divides(d, v as int),
{
}

/// Building a number from a `u64` keeps its value, so the number is prime
/// exactly when the integer is.
pub proof fn lemma_from_u64_keeps_value(v: u64)
    ensures
        denotes(<JsonNumber as vstd::std_specs::convert::FromSpec<u64>>::from_spec(v), v as int),
        number_is_prime(<JsonNumber as vstd::std_specs::convert::FromSpec<u64>>::from_spec(v))
            <==> v > 1 && forall|d: int| 2 <= d < v ==> !#[trigger] divides(d, v as int),
{
}

} // verus!
