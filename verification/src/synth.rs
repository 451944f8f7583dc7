//! Decision logic of the synthetic blood-test generator: pure
//! computations from drawn values to the fields of a laboratory-test row.
//! Drawing the random values and assembling the tabular batch stay with
//! the caller.

use vstd::prelude::*;
use vstd::string::StrSliceExecFns;
use vstd::string::StringExecFns;

verus! {

/// The two genders the generator draws.
#[derive(Clone, Copy, Debug, PartialEq, Eq, Structural)]
pub enum Gender {
    Female,
    Male,
}

/// The character of one decimal digit.
pub open spec fn digit_char(d: int) -> char {
    seq!['0', '1', '2', '3', '4', '5', '6', '7', '8', '9'][d]
}

/// The decimal digits of `n`, least significant first.
pub open spec fn digits_rev(n: nat) -> Seq<char>
    decreases n,
{
    if n < 10 {
        seq![digit_char(n as int)]
    } else {
        proof {
            assert(n / 10 < n) by (nonlinear_arith)
                requires
                    n >= 10,
            ;
        }
        seq![digit_char((n % 10) as int)] + digits_rev(n / 10)
    }
}

/// The decimal spelling of `n`: its digits, most significant first.
pub open spec fn decimal(n: nat) -> Seq<char> {
    digits_rev(n).reverse()
}

/// The characters of a sequence of digit values.
spec fn digit_chars_of(v: Seq<u32>) -> Seq<char> {
    v.map_values(|d: u32| digit_char(d as int))
}

/// Render a number in decimal.
pub fn u32_to_decimal(n: u32) -> (r: String)
    ensures
        r@ == decimal(n as nat),
{
    let mut v: Vec<u32> = Vec::new();
    let mut m = n;
    while m >= 10
        invariant
            digits_rev(n as nat) == digit_chars_of(v@) + digits_rev(m as nat),
            forall|q: int| 0 <= q < v@.len() ==> #[trigger] v@[q] < 10,
        decreases m,
    {
        let ghost pre = v@;
        let d = m % 10;
        v.push(d);
        proof {
            assert(digit_chars_of(v@) =~= digit_chars_of(pre).push(digit_char(d as int)));
            assert(digit_chars_of(pre) + (seq![digit_char((m % 10) as int)] + digits_rev(
                (m / 10) as nat,
            )) =~= digit_chars_of(v@) + digits_rev((m / 10) as nat));
            assert(m / 10 < m) by (nonlinear_arith)
                requires
                    m >= 10,
            ;
        }
        m = m / 10;
    }
    let ghost pre = v@;
    v.push(m);
    proof {
        assert(digits_rev(m as nat) == seq![digit_char(m as int)]);
        assert(digit_chars_of(v@) =~= digit_chars_of(pre).push(digit_char(m as int)));
        assert(digit_chars_of(v@) =~= digit_chars_of(pre) + digits_rev(m as nat));
        assert(digit_chars_of(v@) == digits_rev(n as nat));
    }
    let ghost target = decimal(n as nat);
    proof {
        assert(target.len() == v@.len());
    }
    let mut s = String::new();
    let mut k = v.len();
    while k > 0
        invariant
            k <= v.len(),
            v@.len() == target.len(),
            target == decimal(n as nat),
            digit_chars_of(v@) == digits_rev(n as nat),
            forall|q: int| 0 <= q < v@.len() ==> #[trigger] v@[q] < 10,
            s@ =~= target.take(v@.len() - k),
        decreases k,
    {
        k = k - 1;
        let d = v[k];
        let digits = "0123456789";
        proof {
            reveal_strlit("0123456789");
            assert(digits@.len() == 10);
        }
        let c = digits.substring_char(d as usize, d as usize + 1);
        proof {
            assert(digits@[d as int] == digit_char(d as int));
            assert(c@ =~= seq![digit_char(d as int)]);
            let i = v@.len() - 1 - k;
            assert(target[i as int] == digits_rev(n as nat)[k as int]);
            assert(digits_rev(n as nat)[k as int] == digit_char(v@[k as int] as int));
            assert(s@ + c@ =~= target.take(i + 1));
        }
        s.append(c);
    }
    proof {
        assert(target.take(target.len() as int) =~= target);
    }
    s
}

/// A laboratory blood-test row, all fields string-encoded as the
/// tabular target format requires.
#[derive(Debug)]
pub struct BloodTest {
    /// Top-level category name (e.g. FULL BLOOD COUNT).
    pub order_name: String,
    /// Test name within the order (e.g. haemoglobin).
    pub test_name: String,
    /// Test result, a string-encoded number.
    pub test_result: String,
    /// Physical unit, when the quantity has one.
    pub test_result_unit: Option<String>,
    /// Normal lower limit, when one makes sense.
    pub result_lower_range: Option<String>,
    /// Normal upper limit, when one makes sense.
    pub result_upper_range: Option<String>,
}

impl BloodTest {
    /// A regular full-blood-count haemoglobin result, in g/L. The gender
    /// decides the normal range: 120–150 for women, 130–170 for men.
    pub fn new_haemoglobin(test_result: u32, gender: Gender) -> (r: Self)
        ensures
            r.order_name@ == "FULL BLOOD COUNT"@,
            r.test_name@ == "haemoglobin"@,
            r.test_result@ == decimal(test_result as nat),
            r.test_result_unit matches Some(u) && u@ == "g/L"@,
            gender == Gender::Female ==> (r.result_lower_range matches Some(l) && l@ == "120"@),
            gender == Gender::Female ==> (r.result_upper_range matches Some(h) && h@ == "150"@),
            gender == Gender::Male ==> (r.result_lower_range matches Some(l) && l@ == "130"@),
            gender == Gender::Male ==> (r.result_upper_range matches Some(h) && h@ == "170"@),
    {
        let (result_lower_range, result_upper_range) = match gender {
            Gender::Female => (
                Some(String::from_str("120")),
                Some(String::from_str("150")),
            ),
            Gender::Male => (
                Some(String::from_str("130")),
                Some(String::from_str("170")),
            ),
        };
        BloodTest {
            order_name: String::from_str("FULL BLOOD COUNT"),
            test_name: String::from_str("haemoglobin"),
            test_result: u32_to_decimal(test_result),
            test_result_unit: Some(String::from_str("g/L")),
            result_lower_range,
            result_upper_range,
        }
    }
}

/// The subject identifier of a drawn patient number.
pub fn subject_name(patient_id: u32) -> (r: String)
    ensures
        r@ == "bristol_"@ + decimal(patient_id as nat),
{
    let mut s = String::from_str("bristol_");
    let d = u32_to_decimal(patient_id);
    s.append(d.as_str());
    s
}

/// The gender a drawn coin decides.
pub fn gender_from_coin(heads: bool) -> (r: Gender)
    ensures
        heads <==> r == Gender::Female,
{
    if heads {
        Gender::Female
    } else {
        Gender::Male
    }
}

/// The result flag a drawn coin decides.
pub fn result_flag_from_coin(heads: bool) -> (r: Option<String>)
    ensures
        heads ==> (r matches Some(f) && f@ == "<"@),
        !heads ==> r is None,
{
    if heads {
        Some(String::from_str("<"))
    } else {
        None
    }
}

/// The collection and availability timestamps of a sample, in seconds:
/// both drawn in whole minutes, the result available no earlier than the
/// sample was collected.
pub fn observation_times(sample_minutes: u32, processing_minutes: u32) -> (r: (i64, i64))
    ensures
        r.0 == 60 * (sample_minutes as int),
        r.1 == r.0 + 60 * (processing_minutes as int),
{
    let collected: i64 = 60 * (sample_minutes as i64);
    let available: i64 = collected + 60 * (processing_minutes as i64);
    (collected, available)
}

} // verus!
