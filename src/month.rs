use vstd::prelude::*;
use vstd::string::*;
use crate::text::{decimal, decimal_of, text_of};

verus! {

/// The German label of a month; any other number is written in decimal.
pub open spec fn month_label(month: u32) -> Seq<char> {
    if month == 1 { "Jänner"@ }
    else if month == 2 { "Februar"@ }
    else if month == 3 { "März"@ }
    else if month == 4 { "April"@ }
    else if month == 5 { "Mai"@ }
    else if month == 6 { "Juni"@ }
    else if month == 7 { "Juli"@ }
    else if month == 8 { "August"@ }
    else if month == 9 { "September"@ }
    else if month == 10 { "Oktober"@ }
    else if month == 11 { "November"@ }
    else if month == 12 { "Dezember"@ }
    else { decimal(month as nat) }
}

/// The label of a month as used in directory names.
pub fn month_to_string(month: u32) -> (r: String)
    ensures
        r@ == month_label(month),
{
    if month == 1 { String::from_str("Jänner") }
    else if month == 2 { String::from_str("Februar") }
    else if month == 3 { String::from_str("März") }
    else if month == 4 { String::from_str("April") }
    else if month == 5 { String::from_str("Mai") }
    else if month == 6 { String::from_str("Juni") }
    else if month == 7 { String::from_str("Juli") }
    else if month == 8 { String::from_str("August") }
    else if month == 9 { String::from_str("September") }
    else if month == 10 { String::from_str("Oktober") }
    else if month == 11 { String::from_str("November") }
    else if month == 12 { String::from_str("Dezember") }
    else { text_of(&decimal_of(month as u64)) }
}

} // verus!
