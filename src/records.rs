//! The records the library exchanges with its store and its callers.

use vstd::prelude::*;

verus! {

/// A weather station. Longitude and latitude are whole numbers of 1e-7
/// degree units, the form in which the station source reports them.
#[derive(Debug, Clone)]
pub struct Station {
    pub id: i64,
    pub name: String,
    pub lon_x: i64,
    pub lat_y: i64,
    pub dly_first_date: Option<String>,
    pub dly_last_date: Option<String>,
}

/// Seasonal switch dates stored for one station and year.
#[derive(Debug, Clone)]
pub struct ClimateData {
    pub id: i64,
    pub station_id: i64,
    pub year: i64,
    pub switch_to_summer: Option<String>,
    pub switch_to_winter: Option<String>,
}

/// The error payload of the query interface: a human-readable message.
#[derive(Debug, Clone)]
pub struct ErrorResponse {
    pub error: String,
}

/// A copy of an optional text.
pub fn copy_text(t: &Option<String>) -> (r: Option<String>)
    ensures
        r == *t,
{
    match t {
        Some(s) => Some(s.clone()),
        None => None,
    }
}

} // verus!
