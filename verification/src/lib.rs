//! Padel court availabilities at LeGarden: the data model of the booking
//! server's answers, what got freed between two polls, the filters of users'
//! alarms and of the calendar view, and the decisions of the polling server.
use vstd::prelude::*;

pub mod alarm;
pub mod api;
pub mod availabilities;
pub mod calendar;
pub mod dates;
pub mod errors;
pub mod freed;
pub mod legarden;
pub mod notify;
pub mod server_error;
pub mod services;
pub mod strmap;
pub mod text;

verus! {

} // verus!
