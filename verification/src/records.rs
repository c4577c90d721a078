use vstd::prelude::*;

use crate::models::{Course, Instructor, Room, Subject};

verus! {

/// The error `uuid` reports for text that is no UUID, carried through as is.
#[verifier::external_type_specification]
#[verifier::external_body]
pub struct ExUuidError(uuid::Error);

/// The lower-case hexadecimal digit of a value below sixteen.
pub open spec fn hex_digit(n: int) -> char {
    if n < 10 {
        ('0' as int + n) as char
    } else {
        ('a' as int + n - 10) as char
    }
}

/// The `k`-th of the 32 hexadecimal digits of `v`, most significant first.
pub open spec fn nibble(v: u128, k: int) -> int {
    (v as int / vstd::arithmetic::power::pow(16, (31 - k) as nat)) % 16
}

/// Which digit stands at position `i` of the hyphenated form.
pub open spec fn digit_at(i: int) -> int {
    if i < 8 {
        i
    } else if i < 13 {
        i - 1
    } else if i < 18 {
        i - 2
    } else if i < 23 {
        i - 3
    } else {
        i - 4
    }
}

/// The hyphenated lower-case form of a UUID: 32 hexadecimal digits in groups
/// of 8, 4, 4, 4 and 12, joined by hyphens.
pub open spec fn hyphenated_text(v: u128) -> Seq<char> {
    Seq::new(
        36,
        |i: int|
            if i == 8 || i == 13 || i == 18 || i == 23 {
                '-'
            } else {
                hex_digit(nibble(v, digit_at(i)))
            },
    )
}

/// The value of a hexadecimal digit of either case.
pub open spec fn hex_value(c: char) -> Option<int> {
    let x = c as int;
    if '0' as int <= x <= '9' as int {
        Some(x - '0' as int)
    } else if 'a' as int <= x <= 'f' as int {
        Some(x - 'a' as int + 10)
    } else if 'A' as int <= x <= 'F' as int {
        Some(x - 'A' as int + 10)
    } else {
        None
    }
}

/// The number that a string of hexadecimal digits spells, most significant
/// first, when every character is such a digit.
pub open spec fn hex_number(s: Seq<char>) -> Option<int>
    decreases s.len(),
{
    if s.len() == 0 {
        Some(0)
    } else {
        match (hex_number(s.drop_last()), hex_value(s.last())) {
            (Some(h), Some(d)) => Some(h * 16 + d),
            _ => None,
        }
    }
}

/// The 32 digits of a text in the hyphenated form 8-4-4-4-12, if it has that
/// shape (its digits are checked by `hex_number`).
pub open spec fn hyphenated_digits(s: Seq<char>) -> Option<Seq<char>> {
    if s.len() == 36 && s[8] == '-' && s[13] == '-' && s[18] == '-' && s[23] == '-' {
        Some(
            s.subrange(0, 8) + s.subrange(9, 13) + s.subrange(14, 18) + s.subrange(19, 23)
                + s.subrange(24, 36),
        )
    } else {
        None
    }
}

/// A character with ASCII upper-case letters made lower-case.
pub open spec fn ascii_lower(c: char) -> char {
    if 'A' as int <= c as int <= 'Z' as int {
        (c as int + 32) as char
    } else {
        c
    }
}

/// The 32 digits of a UUID text in any of the forms `uuid::Uuid::parse_str`
/// reads: 32 digits; the hyphenated form; the hyphenated form in braces; or
/// the hyphenated form after `urn:uuid:` in any case.
pub open spec fn uuid_digits(s: Seq<char>) -> Option<Seq<char>> {
    if s.len() == 32 {
        Some(s)
    } else if s.len() == 36 {
        hyphenated_digits(s)
    } else if s.len() == 38 && s[0] == '{' && s[37] == '}' {
        hyphenated_digits(s.subrange(1, 37))
    } else if s.len() == 45 && s.subrange(0, 9).map_values(|c: char| ascii_lower(c)) == "urn:uuid:"@ {
        hyphenated_digits(s.subrange(9, 45))
    } else {
        None
    }
}

/// The UUID a text stands for, if it is one: its digits, of either case, read
/// as a 128-bit number.
pub open spec fn uuid_value(s: Seq<char>) -> Option<u128> {
    match uuid_digits(s) {
        Some(d) => match hex_number(d) {
            Some(v) => Some(v as u128),
            None => None,
        },
        None => None,
    }
}

/// The 32 hexadecimal digits of `v`, most significant first.
pub open spec fn uuid_hex_digits(v: u128) -> Seq<char> {
    Seq::new(32, |k: int| hex_digit(nibble(v, k)))
}

proof fn lemma_hex_digit_value(n: int)
    requires
        0 <= n < 16,
    ensures
        hex_value(hex_digit(n)) == Some(n),
{
}

proof fn lemma_hex_number_prefix(v: u128, n: int)
    requires
        0 <= n <= 32,
    ensures
        hex_number(uuid_hex_digits(v).take(n)) == Some(
            v as int / vstd::arithmetic::power::pow(16, (32 - n) as nat),
        ),
    decreases n,
{
    let d = uuid_hex_digits(v);
    if n == 0 {
        assert(d.take(0) =~= Seq::<char>::empty());
        assert(vstd::arithmetic::power::pow(16, 32) == 0x1_0000_0000_0000_0000_0000_0000_0000_0000int) by {
            reveal_with_fuel(vstd::arithmetic::power::pow, 33);
        }
    } else {
        lemma_hex_number_prefix(v, n - 1);
        assert(d.take(n).drop_last() =~= d.take(n - 1));
        let k = n - 1;
        let p = vstd::arithmetic::power::pow(16, (31 - k) as nat);
        vstd::arithmetic::power::lemma_pow_positive(16, (31 - k) as nat);
        assert(vstd::arithmetic::power::pow(16, (32 - k) as nat) == 16 * p) by {
            reveal(vstd::arithmetic::power::pow);
        }
        let q = v as int / p;
        vstd::arithmetic::div_mod::lemma_mod_bound(q, 16);
        vstd::arithmetic::div_mod::lemma_div_pos_is_pos(v as int, p);
        lemma_hex_digit_value(q % 16);
        assert(d.take(n).last() == hex_digit(nibble(v, k)));
        vstd::arithmetic::div_mod::lemma_div_denominator(v as int, p, 16);
        vstd::arithmetic::div_mod::lemma_fundamental_div_mod(q, 16);
        assert(p * 16 == 16 * p);
    }
}

/// Reading the hyphenated form of a UUID gives the UUID back.
pub proof fn lemma_hyphenated_text_reads_back(v: u128)
    ensures
        uuid_value(hyphenated_text(v)) == Some(v),
{
    let t = hyphenated_text(v);
    let d = uuid_hex_digits(v);
    assert(hyphenated_digits(t) == Some(d)) by {
        let c = t.subrange(0, 8) + t.subrange(9, 13) + t.subrange(14, 18) + t.subrange(19, 23)
            + t.subrange(24, 36);
        assert(c =~= d);
    }
    lemma_hex_number_prefix(v, 32);
    assert(d.take(32) =~= d);
    assert(vstd::arithmetic::power::pow(16, 0) == 1) by {
        reveal(vstd::arithmetic::power::pow);
    }
}

/// Calls `uuid::Uuid::from_u128` and formats the UUID with `to_string`, whose
/// `Display` impl writes the hyphenated lower-case form. Claimed: the text is
/// `hyphenated_text(id)`.
#[verifier::external_body]
fn uuid_text(id: u128) -> (r: String)
    ensures
        r@ == hyphenated_text(id),
{
    uuid::Uuid::from_u128(id).to_string()
}

/// The outcome `r` of reading text `s` is the value whose hyphenated form
/// `s` is, whenever `s` is such a form.
pub open spec fn reads_hyphenated_back<E>(s: Seq<char>, r: Result<u128, E>) -> bool {
    forall|v: u128| s == hyphenated_text(v) ==> (r matches Ok(w) && w == v)
}

/// Calls `uuid::Uuid::parse_str` and takes the 128-bit value of the result
/// with `as_u128`. Claimed, as the parser's source shows: it succeeds exactly
/// on the forms `uuid_digits` describes whose digits are all hexadecimal, and
/// the value is the number they spell. Which `uuid::Error` it reports is left
/// unsaid: the error's kind is private to the crate.
#[verifier::external_body]
fn parse_uuid_text(s: &str) -> (r: Result<u128, uuid::Error>)
    ensures
        r is Ok <==> uuid_value(s@) is Some,
        r matches Ok(v) ==> uuid_value(s@) == Some(v),
{
    match uuid::Uuid::parse_str(s) {
        Ok(u) => Ok(u.as_u128()),
        Err(e) => Err(e),
    }
}

/// Why a stored row cannot be read back.
#[derive(Debug)]
pub enum RecordError {
    /// An identifier column holds text that is no UUID.
    InvalidId(uuid::Error),
}

/// Reads an identifier column.
pub fn parse_id(text: &str) -> (r: Result<u128, RecordError>)
    ensures
        r is Ok <==> uuid_value(text@) is Some,
        r matches Ok(v) ==> uuid_value(text@) == Some(v),
        reads_hyphenated_back(text@, r),
{
    proof {
        assert forall|v: u128| text@ == hyphenated_text(v) implies uuid_value(text@) == Some(v) by {
            lemma_hyphenated_text_reads_back(v);
        }
    }
    match parse_uuid_text(text) {
        Ok(v) => Ok(v),
        Err(e) => Err(RecordError::InvalidId(e)),
    }
}

/// Writes an identifier column.
pub fn id_text(id: u128) -> (r: String)
    ensures
        r@ == hyphenated_text(id),
{
    uuid_text(id)
}

/// A counter read back from the signed 64-bit integer column it was written
/// to is the counter itself: the casts wrap and unwrap.
pub proof fn lemma_counter_column_round_trip(n: usize)
    ensures
        (n as i64) as usize == n,
{
    assert((n as i64) as usize == n) by (bit_vector);
}

/// The columns of a stored course.
pub struct CourseRecord {
    pub id: String,
    pub name: String,
    pub subject_id: String,
    pub instructor_id: String,
    pub sessions_per_week: i64,
    pub student_count: i64,
}

/// The columns of a stored instructor.
pub struct InstructorRecord {
    pub id: String,
    pub name: String,
    pub max_sessions_per_day: i64,
}

/// The columns of a stored room.
pub struct RoomRecord {
    pub id: String,
    pub name: String,
    pub capacity: i64,
}

/// The columns of a stored subject.
pub struct SubjectRecord {
    pub id: String,
    pub name: String,
}

pub open spec fn encodes_course(rec: CourseRecord, c: Course) -> bool {
    &&& rec.id@ == hyphenated_text(c.id)
    &&& rec.name@ == c.name@
    &&& rec.subject_id@ == hyphenated_text(c.subject_id)
    &&& rec.instructor_id@ == hyphenated_text(c.instructor_id)
    &&& rec.sessions_per_week == c.sessions_per_week as i64
    &&& rec.student_count == c.student_count as i64
}

pub open spec fn same_course(a: Course, b: Course) -> bool {
    &&& a.id == b.id
    &&& a.name@ == b.name@
    &&& a.subject_id == b.subject_id
    &&& a.instructor_id == b.instructor_id
    &&& a.sessions_per_week == b.sessions_per_week
    &&& a.student_count == b.student_count
}

pub open spec fn encodes_instructor(rec: InstructorRecord, i: Instructor) -> bool {
    &&& rec.id@ == hyphenated_text(i.id)
    &&& rec.name@ == i.name@
    &&& rec.max_sessions_per_day == i.max_sessions_per_day as i64
}

pub open spec fn same_instructor(a: Instructor, b: Instructor) -> bool {
    &&& a.id == b.id
    &&& a.name@ == b.name@
    &&& a.max_sessions_per_day == b.max_sessions_per_day
}

pub open spec fn encodes_room(rec: RoomRecord, r: Room) -> bool {
    &&& rec.id@ == hyphenated_text(r.id)
    &&& rec.name@ == r.name@
    &&& rec.capacity == r.capacity as i64
}

pub open spec fn same_room(a: Room, b: Room) -> bool {
    &&& a.id == b.id
    &&& a.name@ == b.name@
    &&& a.capacity == b.capacity
}

pub open spec fn encodes_subject(rec: SubjectRecord, s: Subject) -> bool {
    &&& rec.id@ == hyphenated_text(s.id)
    &&& rec.name@ == s.name@
}

pub open spec fn same_subject(a: Subject, b: Subject) -> bool {
    &&& a.id == b.id
    &&& a.name@ == b.name@
}

/// The columns a course is stored as.
pub fn course_record(course: &Course) -> (r: CourseRecord)
    ensures
        encodes_course(r, *course),
{
    CourseRecord {
        id: id_text(course.id),
        name: course.name.clone(),
        subject_id: id_text(course.subject_id),
        instructor_id: id_text(course.instructor_id),
        sessions_per_week: course.sessions_per_week as i64,
        student_count: course.student_count as i64,
    }
}

/// Reads a course back from its columns. The identifiers are read in column
/// order and the first that is no UUID is reported.
pub fn course_from_record(rec: &CourseRecord) -> (r: Result<Course, RecordError>)
    ensures
        r is Ok <==> uuid_value(rec.id@) is Some && uuid_value(rec.subject_id@) is Some && uuid_value(
            rec.instructor_id@,
        ) is Some,
        r matches Ok(c) ==> {
            &&& Some(c.id) == uuid_value(rec.id@)
            &&& c.name@ == rec.name@
            &&& Some(c.subject_id) == uuid_value(rec.subject_id@)
            &&& Some(c.instructor_id) == uuid_value(rec.instructor_id@)
            &&& c.sessions_per_week == rec.sessions_per_week as usize
            &&& c.student_count == rec.student_count as usize
        },
        forall|c: Course|
            #[trigger] encodes_course(*rec, c) ==> (r matches Ok(d) && same_course(d, c)),
{
    let id = match parse_id(rec.id.as_str()) {
        Ok(v) => v,
        Err(e) => return Err(e),
    };
    let subject_id = match parse_id(rec.subject_id.as_str()) {
        Ok(v) => v,
        Err(e) => return Err(e),
    };
    let instructor_id = match parse_id(rec.instructor_id.as_str()) {
        Ok(v) => v,
        Err(e) => return Err(e),
    };
    proof {
        assert forall|c: Course| #[trigger] encodes_course(*rec, c) implies (c.sessions_per_week
            == rec.sessions_per_week as usize && c.student_count == rec.student_count as usize) by {
            lemma_counter_column_round_trip(c.sessions_per_week);
            lemma_counter_column_round_trip(c.student_count);
        }
    }
    Ok(
        Course {
            id,
            name: rec.name.clone(),
            subject_id,
            instructor_id,
            sessions_per_week: rec.sessions_per_week as usize,
            student_count: rec.student_count as usize,
        },
    )
}

/// The columns an instructor is stored as.
pub fn instructor_record(instructor: &Instructor) -> (r: InstructorRecord)
    ensures
        encodes_instructor(r, *instructor),
{
    InstructorRecord {
        id: id_text(instructor.id),
        name: instructor.name.clone(),
        max_sessions_per_day: instructor.max_sessions_per_day as i64,
    }
}

/// Reads an instructor back from its columns.
pub fn instructor_from_record(rec: &InstructorRecord) -> (r: Result<Instructor, RecordError>)
    ensures
        r is Ok <==> uuid_value(rec.id@) is Some,
        r matches Ok(i) ==> {
            &&& Some(i.id) == uuid_value(rec.id@)
            &&& i.name@ == rec.name@
            &&& i.max_sessions_per_day == rec.max_sessions_per_day as usize
        },
        forall|i: Instructor|
            #[trigger] encodes_instructor(*rec, i) ==> (r matches Ok(d) && same_instructor(d, i)),
{
    let id = match parse_id(rec.id.as_str()) {
        Ok(v) => v,
        Err(e) => return Err(e),
    };
    proof {
        assert forall|i: Instructor| #[trigger] encodes_instructor(*rec, i) implies i.max_sessions_per_day
            == rec.max_sessions_per_day as usize by {
            lemma_counter_column_round_trip(i.max_sessions_per_day);
        }
    }
    Ok(
        Instructor {
            id,
            name: rec.name.clone(),
            max_sessions_per_day: rec.max_sessions_per_day as usize,
        },
    )
}

/// The columns a room is stored as.
pub fn room_record(room: &Room) -> (r: RoomRecord)
    ensures
        encodes_room(r, *room),
{
    RoomRecord { id: id_text(room.id), name: room.name.clone(), capacity: room.capacity as i64 }
}

/// Reads a room back from its columns.
pub fn room_from_record(rec: &RoomRecord) -> (r: Result<Room, RecordError>)
    ensures
        r is Ok <==> uuid_value(rec.id@) is Some,
        r matches Ok(room) ==> {
            &&& Some(room.id) == uuid_value(rec.id@)
            &&& room.name@ == rec.name@
            &&& room.capacity == rec.capacity as usize
        },
        forall|room: Room|
            #[trigger] encodes_room(*rec, room) ==> (r matches Ok(d) && same_room(d, room)),
{
    let id = match parse_id(rec.id.as_str()) {
        Ok(v) => v,
        Err(e) => return Err(e),
    };
    proof {
        assert forall|room: Room| #[trigger] encodes_room(*rec, room) implies room.capacity
            == rec.capacity as usize by {
            lemma_counter_column_round_trip(room.capacity);
        }
    }
    Ok(Room { id, name: rec.name.clone(), capacity: rec.capacity as usize })
}

/// The columns a subject is stored as.
pub fn subject_record(subject: &Subject) -> (r: SubjectRecord)
    ensures
        encodes_subject(r, *subject),
{
    SubjectRecord { id: id_text(subject.id), name: subject.name.clone() }
}

/// Reads a subject back from its columns.
pub fn subject_from_record(rec: &SubjectRecord) -> (r: Result<Subject, RecordError>)
    ensures
        r is Ok <==> uuid_value(rec.id@) is Some,
        r matches Ok(s) ==> Some(s.id) == uuid_value(rec.id@) && s.name@ == rec.name@,
        forall|s: Subject| #[trigger] encodes_subject(*rec, s) ==> (r matches Ok(d) && same_subject(d, s)),
{
    let id = match parse_id(rec.id.as_str()) {
        Ok(v) => v,
        Err(e) => return Err(e),
    };
    Ok(Subject { id, name: rec.name.clone() })
}

} // verus!
