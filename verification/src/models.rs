use vstd::prelude::*;

use crate::text::text_equals;

verus! {

/// A teaching day of the week.
#[derive(Clone, Copy, Debug, PartialEq, Eq, Structural, Hash)]
pub enum Day {
    Monday,
    Tuesday,
    Wednesday,
    Thursday,
    Friday,
    Saturday,
}

/// A course to be timetabled: it meets `sessions_per_week` times (at least
/// once) with `student_count` students. Identifiers are the 128-bit values of
/// the UUIDs that name the records.
#[derive(Clone, Debug)]
pub struct Course {
    pub id: u128,
    pub name: String,
    pub subject_id: u128,
    pub instructor_id: u128,
    pub sessions_per_week: usize,
    pub student_count: usize,
}

/// An instructor, who should not teach more than `max_sessions_per_day`
/// sessions on one day.
#[derive(Clone, Debug)]
pub struct Instructor {
    pub id: u128,
    pub name: String,
    pub max_sessions_per_day: usize,
}

/// A room that seats `capacity` students.
#[derive(Clone, Debug)]
pub struct Room {
    pub id: u128,
    pub name: String,
    pub capacity: usize,
}

/// A subject that courses belong to.
#[derive(Clone, Debug)]
pub struct Subject {
    pub id: u128,
    pub name: String,
}

/// A teaching period on a given day.
#[derive(Clone, Copy, Debug, PartialEq, Eq, Structural)]
pub struct SessionSlot {
    pub day: Day,
    pub period: usize,
}

/// One session of a course, placed in a room at a slot.
#[derive(Clone, Copy, Debug, PartialEq, Eq, Structural)]
pub struct Assignment {
    pub course_id: u128,
    pub subject_id: u128,
    pub instructor_id: u128,
    pub room_id: u128,
    pub slot: SessionSlot,
}

/// A timetable together with its fitness score (from 0 up to
/// `fitness::BASE_SCORE`; higher is better).
#[derive(Clone, Debug)]
pub struct Schedule {
    pub assignments: Vec<Assignment>,
    pub fitness: u64,
}

/// The number of parts per million that stands for certainty in
/// `GenerationRequest::mutation_rate_ppm`.
pub const MUTATION_RATE_SCALE: u32 = 1_000_000;

/// Everything a schedule is generated from. The mutation rate is the chance,
/// in parts per million, that a session is moved during mutation; values
/// above `MUTATION_RATE_SCALE` count as certainty.
#[derive(Clone, Debug)]
pub struct GenerationRequest {
    pub courses: Vec<Course>,
    pub instructors: Vec<Instructor>,
    pub rooms: Vec<Room>,
    pub subjects: Vec<Subject>,
    pub days: Vec<Day>,
    pub periods_per_day: usize,
    pub population_size: usize,
    pub generations: usize,
    pub mutation_rate_ppm: u32,
}

/// The English name of a day.
pub open spec fn day_name(d: Day) -> Seq<char> {
    match d {
        Day::Monday => "Monday"@,
        Day::Tuesday => "Tuesday"@,
        Day::Wednesday => "Wednesday"@,
        Day::Thursday => "Thursday"@,
        Day::Friday => "Friday"@,
        Day::Saturday => "Saturday"@,
    }
}

/// The day a name denotes; any text that names no day denotes Monday.
pub open spec fn day_from_name(s: Seq<char>) -> Day {
    if s == "Monday"@ {
        Day::Monday
    } else if s == "Tuesday"@ {
        Day::Tuesday
    } else if s == "Wednesday"@ {
        Day::Wednesday
    } else if s == "Thursday"@ {
        Day::Thursday
    } else if s == "Friday"@ {
        Day::Friday
    } else if s == "Saturday"@ {
        Day::Saturday
    } else {
        Day::Monday
    }
}

impl Day {
    /// The day's name, as stored and shown.
    pub fn as_str(&self) -> (r: &'static str)
        ensures
            r@ == day_name(*self),
    {
        match self {
            Day::Monday => "Monday",
            Day::Tuesday => "Tuesday",
            Day::Wednesday => "Wednesday",
            Day::Thursday => "Thursday",
            Day::Friday => "Friday",
            Day::Saturday => "Saturday",
        }
    }

    /// Reads a day back from its name; unknown text gives Monday.
    pub fn from_str(s: &str) -> (r: Day)
        ensures
            r == day_from_name(s@),
    {
        if text_equals(s, "Monday") {
            Day::Monday
        } else if text_equals(s, "Tuesday") {
            Day::Tuesday
        } else if text_equals(s, "Wednesday") {
            Day::Wednesday
        } else if text_equals(s, "Thursday") {
            Day::Thursday
        } else if text_equals(s, "Friday") {
            Day::Friday
        } else if text_equals(s, "Saturday") {
            Day::Saturday
        } else {
            Day::Monday
        }
    }
}

/// Reading back the name of a day gives the same day.
pub proof fn lemma_day_name_round_trip(d: Day)
    ensures
        day_from_name(day_name(d)) == d,
{
    reveal_strlit("Monday");
    reveal_strlit("Tuesday");
    reveal_strlit("Wednesday");
    reveal_strlit("Thursday");
    reveal_strlit("Friday");
    reveal_strlit("Saturday");
    // Names of different days differ in length or in their first two letters.
    assert("Monday"@[0] != "Tuesday"@[0]);
    assert("Tuesday"@[1] != "Thursday"@[1]);
    assert("Monday"@.len() != "Wednesday"@.len());
    assert("Monday"@[0] != "Thursday"@[0]);
    assert("Monday"@[0] != "Friday"@[0]);
    assert("Monday"@[0] != "Saturday"@[0]);
    assert("Tuesday"@.len() != "Wednesday"@.len());
    assert("Tuesday"@.len() != "Friday"@.len());
    assert("Tuesday"@.len() != "Saturday"@.len());
    assert("Wednesday"@.len() != "Thursday"@.len());
    assert("Wednesday"@.len() != "Friday"@.len());
    assert("Wednesday"@.len() != "Saturday"@.len());
    assert("Thursday"@.len() != "Friday"@.len());
    assert("Thursday"@[0] != "Saturday"@[0]);
    assert("Friday"@.len() != "Saturday"@.len());
}

} // verus!
