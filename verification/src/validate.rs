//! Policy parameter validation: unit normalization and token parsing,
//! checked before any bucket is assigned or any directory is created.

use vstd::prelude::*;
use crate::entry::{DateField, DateGranularity, SplitError};
use crate::lex::str_eq;

verus! {

/// The byte multiplier of a size unit token, binary (1024-based), or
/// `None` for an unrecognized token.
pub open spec fn unit_factor(unit: Seq<char>) -> Option<nat> {
    if unit == "b"@ {
        Some(1nat)
    } else if unit == "kb"@ {
        Some(1024nat)
    } else if unit == "mb"@ {
        Some(1048576nat)
    } else if unit == "gb"@ {
        Some(1073741824nat)
    } else if unit == "tb"@ {
        Some(1099511627776nat)
    } else {
        None
    }
}

/// Normalizes a size limit to bytes.  The unit must be one of `b`, `kb`,
/// `mb`, `gb`, `tb` (binary multiples); the result must be positive and
/// fit in 64 bits, else the parameter is invalid.
pub fn normalize_size(value: u64, unit: &str) -> (r: Result<u64, SplitError>)
    ensures
        unit_factor(unit@) is None ==> r is Err && r->Err_0 == SplitError::InvalidPolicyParameter,
        unit_factor(unit@) matches Some(f) ==> {
            if value * f == 0 || value * f > 0xFFFFFFFFFFFFFFFF {
                r is Err && r->Err_0 == SplitError::InvalidPolicyParameter
            } else {
                r is Ok && r->Ok_0 == value * f
            }
        },
{
    let factor: u64 = if str_eq(unit, "b") {
        1
    } else if str_eq(unit, "kb") {
        1024
    } else if str_eq(unit, "mb") {
        1048576
    } else if str_eq(unit, "gb") {
        1073741824
    } else if str_eq(unit, "tb") {
        1099511627776
    } else {
        return Err(SplitError::InvalidPolicyParameter);
    };
    if value == 0 {
        return Err(SplitError::InvalidPolicyParameter);
    }
    if value > 0xFFFFFFFFFFFFFFFF / factor {
        proof {
            let f = unit_factor(unit@)->0;
            assert(value * f > 0xFFFFFFFFFFFFFFFF);
        }
        return Err(SplitError::InvalidPolicyParameter);
    }
    Ok(value * factor)
}

/// The date field a token names, or `None` for an unrecognized token.
pub open spec fn date_field_of(token: Seq<char>) -> Option<DateField> {
    if token == "created"@ {
        Some(DateField::Created)
    } else if token == "accessed"@ {
        Some(DateField::Accessed)
    } else if token == "modified"@ {
        Some(DateField::Modified)
    } else {
        None
    }
}

/// Parses a date field token: `created`, `accessed` or `modified`.
pub fn parse_date_field(token: &str) -> (r: Result<DateField, SplitError>)
    ensures
        date_field_of(token@) matches Some(f) ==> r is Ok && r->Ok_0 == f,
        date_field_of(token@) is None ==> r is Err && r->Err_0
            == SplitError::InvalidPolicyParameter,
{
    if str_eq(token, "created") {
        Ok(DateField::Created)
    } else if str_eq(token, "accessed") {
        Ok(DateField::Accessed)
    } else if str_eq(token, "modified") {
        Ok(DateField::Modified)
    } else {
        Err(SplitError::InvalidPolicyParameter)
    }
}

/// The granularity a token names, or `None` for an unrecognized token.
pub open spec fn granularity_of(token: Seq<char>) -> Option<DateGranularity> {
    if token == "hour"@ {
        Some(DateGranularity::Hour)
    } else if token == "day"@ {
        Some(DateGranularity::Day)
    } else if token == "month"@ {
        Some(DateGranularity::Month)
    } else if token == "year"@ {
        Some(DateGranularity::Year)
    } else {
        None
    }
}

/// Parses a time granularity token: `hour`, `day`, `month` or `year`.
pub fn parse_granularity(token: &str) -> (r: Result<DateGranularity, SplitError>)
    ensures
        granularity_of(token@) matches Some(g) ==> r is Ok && r->Ok_0 == g,
        granularity_of(token@) is None ==> r is Err && r->Err_0
            == SplitError::InvalidPolicyParameter,
{
    if str_eq(token, "hour") {
        Ok(DateGranularity::Hour)
    } else if str_eq(token, "day") {
        Ok(DateGranularity::Day)
    } else if str_eq(token, "month") {
        Ok(DateGranularity::Month)
    } else if str_eq(token, "year") {
        Ok(DateGranularity::Year)
    } else {
        Err(SplitError::InvalidPolicyParameter)
    }
}

} // verus!
