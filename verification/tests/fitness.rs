use classga::fitness::{
    count_capacity_violations, count_instructor_conflicts, count_room_conflicts,
    count_total_overload, fitness, BASE_SCORE,
};
use classga::models::{
    Assignment, Course, Day, GenerationRequest, Instructor, Room, SessionSlot,
};

const COURSE: u128 = 1;
const SUBJECT: u128 = 2;
const ADA: u128 = 3;
const GRACE: u128 = 4;
const LAB: u128 = 5;
const HALL: u128 = 6;

fn request() -> GenerationRequest {
    GenerationRequest {
        courses: vec![Course {
            id: COURSE,
            name: "Algorithms".into(),
            subject_id: SUBJECT,
            instructor_id: ADA,
            sessions_per_week: 3,
            student_count: 30,
        }],
        instructors: vec![
            Instructor { id: ADA, name: "Ada".into(), max_sessions_per_day: 2 },
            Instructor { id: GRACE, name: "Grace".into(), max_sessions_per_day: 1 },
        ],
        rooms: vec![
            Room { id: LAB, name: "Lab".into(), capacity: 40 },
            Room { id: HALL, name: "Hall".into(), capacity: 20 },
        ],
        subjects: vec![],
        days: vec![Day::Monday, Day::Tuesday],
        periods_per_day: 4,
        population_size: 4,
        generations: 1,
        mutation_rate_ppm: 0,
    }
}

fn session(instructor: u128, room: u128, day: Day, period: usize) -> Assignment {
    Assignment {
        course_id: COURSE,
        subject_id: SUBJECT,
        instructor_id: instructor,
        room_id: room,
        slot: SessionSlot { day, period },
    }
}

#[test]
fn clean_timetable_scores_the_base() {
    let s = vec![
        session(ADA, LAB, Day::Monday, 0),
        session(ADA, LAB, Day::Monday, 1),
        session(ADA, LAB, Day::Tuesday, 0),
    ];
    assert_eq!(fitness(&s, &request()), BASE_SCORE);
    assert_eq!(fitness(&[], &request()), 10_000);
}

#[test]
fn room_conflict_costs_five_hundred() {
    let s = vec![session(ADA, LAB, Day::Monday, 0), session(GRACE, LAB, Day::Monday, 0)];
    assert_eq!(count_room_conflicts(&s), 1);
    assert_eq!(count_instructor_conflicts(&s), 0);
    assert_eq!(fitness(&s, &request()), 9_500);
}

#[test]
fn instructor_conflict_costs_five_hundred() {
    let s = vec![session(ADA, LAB, Day::Monday, 2), session(ADA, HALL, Day::Monday, 2)];
    assert_eq!(count_instructor_conflicts(&s), 1);
    // The hall seats 20 of the course's 30 students.
    assert_eq!(count_capacity_violations(&s, &request().courses, &request().rooms), 1);
    assert_eq!(fitness(&s, &request()), 10_000 - 500 - 300);
}

#[test]
fn same_room_and_instructor_counts_twice() {
    let s = vec![
        session(ADA, LAB, Day::Tuesday, 3),
        session(ADA, LAB, Day::Tuesday, 3),
        session(ADA, LAB, Day::Tuesday, 3),
    ];
    assert_eq!(count_room_conflicts(&s), 2);
    assert_eq!(count_instructor_conflicts(&s), 2);
    // Three sessions on one day against a limit of two.
    assert_eq!(count_total_overload(&s, &request().instructors), 1);
    assert_eq!(fitness(&s, &request()), 10_000 - 1_000 - 1_000 - 200);
}

#[test]
fn overload_is_charged_per_extra_session_and_per_day() {
    let s = vec![
        session(GRACE, LAB, Day::Monday, 0),
        session(GRACE, LAB, Day::Monday, 1),
        session(GRACE, LAB, Day::Monday, 2),
        session(GRACE, LAB, Day::Tuesday, 0),
        session(GRACE, LAB, Day::Tuesday, 1),
    ];
    assert_eq!(count_total_overload(&s, &request().instructors), 3);
    assert_eq!(fitness(&s, &request()), 10_000 - 600);
}

#[test]
fn unknown_instructor_course_or_room_is_not_charged() {
    let mut a = session(99, 98, Day::Monday, 0);
    a.course_id = 97;
    let s = vec![a, session(99, LAB, Day::Monday, 1), session(99, LAB, Day::Monday, 2)];
    assert_eq!(count_total_overload(&s, &request().instructors), 0);
    assert_eq!(count_capacity_violations(&s, &request().courses, &request().rooms), 0);
    assert_eq!(fitness(&s, &request()), 10_000);
}

#[test]
fn later_records_with_the_same_id_win() {
    let mut r = request();
    r.rooms.push(Room { id: LAB, name: "Lab (rebuilt)".into(), capacity: 10 });
    r.instructors.push(Instructor { id: ADA, name: "Ada".into(), max_sessions_per_day: 5 });
    let s = vec![
        session(ADA, LAB, Day::Monday, 0),
        session(ADA, LAB, Day::Monday, 1),
        session(ADA, LAB, Day::Monday, 2),
    ];
    assert_eq!(count_capacity_violations(&s, &r.courses, &r.rooms), 3);
    assert_eq!(count_total_overload(&s, &r.instructors), 0);
    assert_eq!(fitness(&s, &r), 10_000 - 900);
}

#[test]
fn fitness_never_drops_below_zero() {
    let s: Vec<Assignment> = (0..30).map(|_| session(GRACE, HALL, Day::Monday, 0)).collect();
    assert_eq!(count_room_conflicts(&s), 29);
    assert_eq!(fitness(&s, &request()), 0);
}

#[test]
fn session_order_does_not_change_the_score() {
    let s = vec![
        session(GRACE, HALL, Day::Monday, 0),
        session(ADA, LAB, Day::Monday, 0),
        session(GRACE, LAB, Day::Monday, 1),
        session(GRACE, HALL, Day::Monday, 0),
        session(ADA, LAB, Day::Tuesday, 2),
    ];
    let mut r = s.clone();
    r.reverse();
    let mut rotated = s.clone();
    rotated.rotate_left(2);
    let score = fitness(&s, &request());
    assert_eq!(fitness(&r, &request()), score);
    assert_eq!(fitness(&rotated, &request()), score);
    assert_eq!(score, 10_000 - 500 - 500 - 2 * 300 - 2 * 200);
}

#[test]
fn adding_a_session_never_raises_the_score() {
    let mut s = vec![session(ADA, LAB, Day::Monday, 0), session(ADA, LAB, Day::Monday, 1)];
    let mut last = fitness(&s, &request());
    for extra in [
        session(ADA, LAB, Day::Monday, 2),
        session(GRACE, HALL, Day::Tuesday, 0),
        session(ADA, LAB, Day::Monday, 0),
    ] {
        s.push(extra);
        let now = fitness(&s, &request());
        assert!(now <= last);
        last = now;
    }
}
