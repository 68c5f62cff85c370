//! Page traces as JSON text, written and read with the `serde_json` crate.
//!
//! Nothing is proved of the crate. What it writes for a list of numbers is
//! short enough to state ([`json_array`]); what it reads from a text is
//! given a name ([`parsed_numbers`]), of which only one thing is said: it
//! reads back what was written.
use crate::text::decimal;
use vstd::prelude::*;

verus! {

/// `serde_json::Error`, made known to Verus as a type whose inside it does
/// not see.
#[verifier::external_type_specification]
#[verifier::external_body]
pub struct ExJsonError(serde_json::Error);

/// The numbers in decimal, separated by commas.
pub open spec fn number_list(numbers: Seq<u32>) -> Seq<char>
    decreases numbers.len(),
{
    if numbers.len() == 0 {
        Seq::empty()
    } else if numbers.len() == 1 {
        decimal(numbers[0] as nat)
    } else {
        number_list(numbers.drop_last()) + ","@ + decimal(numbers.last() as nat)
    }
}

/// The compact JSON text of an array of numbers.
pub open spec fn json_array(numbers: Seq<u32>) -> Seq<char> {
    "["@ + number_list(numbers) + "]"@
}

/// What `serde_json::from_str` reads from a text as a list of `u32`: the
/// list, or nothing where it reports an error.
pub uninterp spec fn parsed_numbers(json: Seq<char>) -> Option<Seq<u32>>;

/// `serde_json::to_string` on a list of numbers: the compact array, an
/// opening bracket, the numbers in decimal with commas between them, and a
/// closing bracket. It reports no error: the crate fails only on a value
/// whose own serialization fails or on a map with keys that are no strings,
/// and a list of numbers is neither.
#[verifier::external_body]
pub(crate) fn numbers_to_json(numbers: &Vec<u32>) -> (written: Result<String, serde_json::Error>)
    ensures
        written is Ok,
        written matches Ok(text) ==> text@ == json_array(numbers@),
{
    serde_json::to_string(numbers)
}

/// `serde_json::from_str` for a list of `u32`: what it reads from the text.
/// From the compact array of a list it reads that list: an array is read
/// element by element, and a run of decimal digits without a leading zero is
/// read as the number that it writes.
#[verifier::external_body]
pub(crate) fn numbers_from_json(json: &str) -> (numbers: Result<Vec<u32>, serde_json::Error>)
    ensures
        match numbers {
            Ok(list) => parsed_numbers(json@) == Some(list@),
            Err(_) => parsed_numbers(json@) is None,
        },
        numbers is Err ==> forall|written: Seq<u32>| json@ != #[trigger] json_array(written),
        numbers matches Ok(list) ==> forall|written: Seq<u32>|
            json@ == #[trigger] json_array(written) ==> list@ == written,
{
    serde_json::from_str(json)
}

} // verus!
