use classga::fitness::fitness;
use classga::ga::generate_schedule;
use classga::models::{Course, Day, GenerationRequest, Instructor, Room, Subject, MUTATION_RATE_SCALE};
use uuid::Uuid;

fn algorithms_request() -> (GenerationRequest, u128, u128, u128) {
    let subject_id = Uuid::new_v4().as_u128();
    let instructor_id = Uuid::new_v4().as_u128();
    let room_id = Uuid::new_v4().as_u128();
    let request = GenerationRequest {
        courses: vec![Course {
            id: Uuid::new_v4().as_u128(),
            name: "Algorithms 101".into(),
            subject_id,
            instructor_id,
            sessions_per_week: 3,
            student_count: 30,
        }],
        instructors: vec![Instructor {
            id: instructor_id,
            name: "Dr. Ada".into(),
            max_sessions_per_day: 3,
        }],
        rooms: vec![Room {
            id: room_id,
            name: "Lab A".into(),
            capacity: 40,
        }],
        subjects: vec![Subject {
            id: subject_id,
            name: "Computer Science".into(),
        }],
        days: vec![Day::Monday, Day::Tuesday, Day::Wednesday],
        periods_per_day: 5,
        population_size: 20,
        generations: 30,
        mutation_rate_ppm: 200_000,
    };
    (request, subject_id, instructor_id, room_id)
}

#[test]
fn generates_non_empty_schedule() {
    let (request, _, _, _) = algorithms_request();
    let schedule = generate_schedule(&request);
    assert_eq!(schedule.assignments.len(), 3);
}

#[test]
fn generated_sessions_stay_within_the_request() {
    let (request, subject_id, instructor_id, room_id) = algorithms_request();
    let schedule = generate_schedule(&request);
    for a in &schedule.assignments {
        assert_eq!(a.course_id, request.courses[0].id);
        assert_eq!(a.subject_id, subject_id);
        assert_eq!(a.instructor_id, instructor_id);
        assert_eq!(a.room_id, room_id);
        assert!(request.days.contains(&a.slot.day));
        assert!(a.slot.period < 5);
    }
    assert_eq!(schedule.fitness, fitness(&schedule.assignments, &request));
}

#[test]
fn generated_fitness_is_reported_exactly() {
    let (mut request, _, _, _) = algorithms_request();
    request.rooms.push(Room { id: Uuid::new_v4().as_u128(), name: "Hall B".into(), capacity: 10 });
    request.population_size = 2;
    request.generations = 0;
    let schedule = generate_schedule(&request);
    assert_eq!(schedule.assignments.len(), 3);
    assert_eq!(schedule.fitness, fitness(&schedule.assignments, &request));
    assert!(schedule.fitness <= 10_000);
}

#[test]
fn course_without_weekly_sessions_still_meets_once() {
    let (mut request, _, _, _) = algorithms_request();
    request.courses[0].sessions_per_week = 0;
    let second = Course {
        id: Uuid::new_v4().as_u128(),
        name: "Compilers".into(),
        subject_id: request.subjects[0].id,
        instructor_id: request.instructors[0].id,
        sessions_per_week: 2,
        student_count: 12,
    };
    request.courses.push(second);
    let schedule = generate_schedule(&request);
    assert_eq!(schedule.assignments.len(), 3);
    assert_eq!(schedule.assignments[0].course_id, request.courses[0].id);
    assert_eq!(schedule.assignments[1].course_id, request.courses[1].id);
    assert_eq!(schedule.assignments[2].course_id, request.courses[1].id);
}

#[test]
fn no_days_means_monday_and_no_periods_means_period_zero() {
    let (mut request, _, _, _) = algorithms_request();
    request.days = vec![];
    request.periods_per_day = 0;
    request.mutation_rate_ppm = MUTATION_RATE_SCALE * 2;
    let schedule = generate_schedule(&request);
    assert_eq!(schedule.assignments.len(), 3);
    for a in &schedule.assignments {
        assert_eq!(a.slot.day, Day::Monday);
        assert_eq!(a.slot.period, 0);
    }
}

#[test]
fn no_courses_gives_an_empty_timetable() {
    let (mut request, _, _, _) = algorithms_request();
    request.courses = vec![];
    let schedule = generate_schedule(&request);
    assert!(schedule.assignments.is_empty());
    assert_eq!(schedule.fitness, 10_000);
}

#[test]
fn one_slot_one_room_forces_conflicts() {
    let (mut request, _, _, _) = algorithms_request();
    request.days = vec![Day::Friday];
    request.periods_per_day = 1;
    let schedule = generate_schedule(&request);
    // Three sessions share the only room and slot: two room conflicts, two
    // instructor conflicts, within the daily limit of three.
    assert_eq!(schedule.fitness, 10_000 - 2 * 500 - 2 * 500);
}
