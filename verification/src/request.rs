use vstd::prelude::*;

use crate::fitness::request_fitness;
use crate::ga::{fits_request, generate_schedule};
use crate::models::{GenerationRequest, Schedule};

verus! {

/// Why a generation request cannot be served.
#[derive(Clone, Copy, Debug, PartialEq, Eq, Structural)]
pub enum RequestError {
    /// One of courses, instructors, rooms, subjects or days is empty.
    MissingData,
    /// The request offers no period in a day.
    NoPeriods,
}

pub open spec fn error_message(e: RequestError) -> Seq<char> {
    match e {
        RequestError::MissingData => "courses, instructors, rooms, subjects and days are required"@,
        RequestError::NoPeriods => "periods_per_day must be greater than 0"@,
    }
}

impl RequestError {
    /// The message sent back to the client.
    pub fn message(&self) -> (r: &'static str)
        ensures
            r@ == error_message(*self),
    {
        match self {
            RequestError::MissingData => "courses, instructors, rooms, subjects and days are required",
            RequestError::NoPeriods => "periods_per_day must be greater than 0",
        }
    }
}

/// The first reason, if any, why a request cannot be served.
pub open spec fn request_problem(request: GenerationRequest) -> Option<RequestError> {
    if request.courses@.len() == 0 || request.instructors@.len() == 0 || request.rooms@.len() == 0
        || request.subjects@.len() == 0 || request.days@.len() == 0 {
        Some(RequestError::MissingData)
    } else if request.periods_per_day == 0 {
        Some(RequestError::NoPeriods)
    } else {
        None
    }
}

/// A request that leaves any of its courses, instructors, rooms, subjects or
/// days empty is refused for missing data, whatever its periods; one that
/// names all of them is refused only when it offers no period in a day.
pub proof fn lemma_request_refusals(request: GenerationRequest)
    ensures
        (request.courses@.len() == 0 || request.instructors@.len() == 0 || request.rooms@.len() == 0
            || request.subjects@.len() == 0 || request.days@.len() == 0) ==> request_problem(request)
            == Some(RequestError::MissingData),
        (request.courses@.len() > 0 && request.instructors@.len() > 0 && request.rooms@.len() > 0
            && request.subjects@.len() > 0 && request.days@.len() > 0) ==> request_problem(request)
            == if request.periods_per_day == 0 {
            Some(RequestError::NoPeriods)
        } else {
            None
        },
{
}

/// Which lists of a generation request are to be filled from the store: each
/// one that the request leaves empty.
#[derive(Clone, Copy, Debug, PartialEq, Eq, Structural)]
pub struct StoreLoads {
    pub courses: bool,
    pub instructors: bool,
    pub rooms: bool,
    pub subjects: bool,
    pub days: bool,
}

/// The lists a request leaves empty, which the stored seed data replaces.
pub fn lists_to_load(request: &GenerationRequest) -> (r: StoreLoads)
    ensures
        r.courses == (request.courses@.len() == 0),
        r.instructors == (request.instructors@.len() == 0),
        r.rooms == (request.rooms@.len() == 0),
        r.subjects == (request.subjects@.len() == 0),
        r.days == (request.days@.len() == 0),
{
    StoreLoads {
        courses: request.courses.len() == 0,
        instructors: request.instructors.len() == 0,
        rooms: request.rooms.len() == 0,
        subjects: request.subjects.len() == 0,
        days: request.days.len() == 0,
    }
}

/// Checks that a request names every kind of entity and at least one period.
pub fn validate_request(request: &GenerationRequest) -> (r: Result<(), RequestError>)
    ensures
        match request_problem(*request) {
            Some(e) => r == Err::<(), RequestError>(e),
            None => r is Ok,
        },
        request.courses@.len() == 0 ==> r == Err::<(), RequestError>(RequestError::MissingData),
        request.instructors@.len() == 0 ==> r == Err::<(), RequestError>(RequestError::MissingData),
        request.rooms@.len() == 0 ==> r == Err::<(), RequestError>(RequestError::MissingData),
        request.subjects@.len() == 0 ==> r == Err::<(), RequestError>(RequestError::MissingData),
        request.days@.len() == 0 ==> r == Err::<(), RequestError>(RequestError::MissingData),
        (request.courses@.len() > 0 && request.instructors@.len() > 0 && request.rooms@.len() > 0
            && request.subjects@.len() > 0 && request.days@.len() > 0) ==> (
        r == if request.periods_per_day == 0 {
            Err::<(), RequestError>(RequestError::NoPeriods)
        } else {
            Ok::<(), RequestError>(())
        }),
{
    if request.courses.len() == 0 || request.instructors.len() == 0 || request.rooms.len() == 0
        || request.subjects.len() == 0 || request.days.len() == 0 {
        return Err(RequestError::MissingData);
    }
    if request.periods_per_day == 0 {
        return Err(RequestError::NoPeriods);
    }
    Ok(())
}

/// Serves a generation request: refuses it as `validate_request` does, and
/// otherwise generates a schedule for it.
pub fn schedule_for(request: &GenerationRequest) -> (r: Result<Schedule, RequestError>)
    ensures
        match request_problem(*request) {
            Some(e) => r == Err::<Schedule, RequestError>(e),
            None => r is Ok,
        },
        request.courses@.len() == 0 ==> r == Err::<Schedule, RequestError>(RequestError::MissingData),
        request.instructors@.len() == 0 ==> r == Err::<Schedule, RequestError>(RequestError::MissingData),
        request.rooms@.len() == 0 ==> r == Err::<Schedule, RequestError>(RequestError::MissingData),
        request.subjects@.len() == 0 ==> r == Err::<Schedule, RequestError>(RequestError::MissingData),
        request.days@.len() == 0 ==> r == Err::<Schedule, RequestError>(RequestError::MissingData),
        (request.courses@.len() > 0 && request.instructors@.len() > 0 && request.rooms@.len() > 0
            && request.subjects@.len() > 0 && request.days@.len() > 0) ==> (if request.periods_per_day
            == 0 {
            r == Err::<Schedule, RequestError>(RequestError::NoPeriods)
        } else {
            r is Ok
        }),
        r matches Ok(s) ==> fits_request(s.assignments@, *request) && s.fitness == request_fitness(
            s.assignments@,
            *request,
        ),
{
    match validate_request(request) {
        Err(e) => Err(e),
        Ok(()) => Ok(generate_schedule(request)),
    }
}

} // verus!
