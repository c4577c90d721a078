use classga::models::{Course, Instructor, Room, Subject};
use classga::records::{
    course_from_record, course_record, id_text, instructor_from_record, instructor_record,
    parse_id, room_from_record, room_record, subject_from_record, subject_record, RecordError,
};
use uuid::Uuid;

#[test]
fn ids_are_written_hyphenated() {
    assert_eq!(
        id_text(0xa1a2a3a4b1b2c1c2d1d2d3d4d5d6d7d8),
        "a1a2a3a4-b1b2-c1c2-d1d2-d3d4d5d6d7d8"
    );
    assert_eq!(id_text(0), "00000000-0000-0000-0000-000000000000");
    assert_eq!(id_text(u128::MAX), "ffffffff-ffff-ffff-ffff-ffffffffffff");
}

#[test]
fn ids_are_read_back() {
    let id = Uuid::new_v4().as_u128();
    assert_eq!(parse_id(&id_text(id)).unwrap(), id);
    assert_eq!(
        parse_id("550e8400-e29b-41d4-a716-446655440000").unwrap(),
        0x550e8400e29b41d4a716446655440000
    );
    assert_eq!(
        parse_id("550E8400E29B41D4A716446655440000").unwrap(),
        0x550e8400e29b41d4a716446655440000
    );
}

#[test]
fn malformed_id_is_an_error() {
    assert!(matches!(parse_id("not-a-uuid"), Err(RecordError::InvalidId(_))));
    assert!(matches!(parse_id(""), Err(RecordError::InvalidId(_))));
}

#[test]
fn course_round_trip() {
    let c = Course {
        id: Uuid::new_v4().as_u128(),
        name: "Algorithms 101".into(),
        subject_id: Uuid::new_v4().as_u128(),
        instructor_id: Uuid::new_v4().as_u128(),
        sessions_per_week: 3,
        student_count: 30,
    };
    let rec = course_record(&c);
    assert_eq!(rec.sessions_per_week, 3);
    assert_eq!(rec.student_count, 30);
    assert_eq!(rec.name, "Algorithms 101");
    assert_eq!(rec.id, Uuid::from_u128(c.id).to_string());
    let d = course_from_record(&rec).unwrap();
    assert_eq!(d.id, c.id);
    assert_eq!(d.name, c.name);
    assert_eq!(d.subject_id, c.subject_id);
    assert_eq!(d.instructor_id, c.instructor_id);
    assert_eq!(d.sessions_per_week, 3);
    assert_eq!(d.student_count, 30);
}

#[test]
fn course_with_bad_instructor_id_is_refused() {
    let c = Course {
        id: 1,
        name: "X".into(),
        subject_id: 2,
        instructor_id: 3,
        sessions_per_week: 1,
        student_count: 1,
    };
    let mut rec = course_record(&c);
    rec.instructor_id = "zzz".into();
    assert!(course_from_record(&rec).is_err());
}

#[test]
fn negative_counter_reads_as_wrapped_usize() {
    let c = Course {
        id: 1,
        name: "X".into(),
        subject_id: 2,
        instructor_id: 3,
        sessions_per_week: 1,
        student_count: 1,
    };
    let mut rec = course_record(&c);
    rec.student_count = -1;
    assert_eq!(course_from_record(&rec).unwrap().student_count, usize::MAX);
}

#[test]
fn instructor_room_subject_round_trip() {
    let i = Instructor { id: 7, name: "Dr. Ada".into(), max_sessions_per_day: 3 };
    let back = instructor_from_record(&instructor_record(&i)).unwrap();
    assert_eq!((back.id, back.name.as_str(), back.max_sessions_per_day), (7, "Dr. Ada", 3));

    let r = Room { id: 8, name: "Lab A".into(), capacity: 40 };
    let back = room_from_record(&room_record(&r)).unwrap();
    assert_eq!((back.id, back.name.as_str(), back.capacity), (8, "Lab A", 40));

    let s = Subject { id: 9, name: "Computer Science".into() };
    let back = subject_from_record(&subject_record(&s)).unwrap();
    assert_eq!((back.id, back.name.as_str()), (9, "Computer Science"));
}

#[test]
fn every_counter_reads_back() {
    for n in [0usize, 1, i64::MAX as usize, i64::MAX as usize + 1, usize::MAX] {
        let r = Room { id: 1, name: "R".into(), capacity: n };
        assert_eq!(room_from_record(&room_record(&r)).unwrap().capacity, n);
    }
}

#[test]
fn every_form_the_parser_reads() {
    let v = 0x550e8400e29b41d4a716446655440000u128;
    assert_eq!(parse_id("{550e8400-e29b-41d4-a716-446655440000}").unwrap(), v);
    assert_eq!(parse_id("urn:uuid:550e8400-e29b-41d4-a716-446655440000").unwrap(), v);
    assert_eq!(parse_id("URN:UUID:550E8400-E29B-41D4-A716-446655440000").unwrap(), v);
    assert_eq!(parse_id("550e8400e29b41d4a716446655440000").unwrap(), v);
    assert!(parse_id("{550e8400e29b41d4a716446655440000}").is_err());
    assert!(parse_id("550e8400-e29b-41d4-a716-44665544000g").is_err());
    assert!(parse_id("550e8400+e29b-41d4-a716-446655440000").is_err());
    assert!(parse_id("urn:uuix:550e8400-e29b-41d4-a716-446655440000").is_err());
}
