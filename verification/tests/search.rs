use classga::fitness::fitness;
use classga::ga::{cross_with, fittest_candidate, fittest_schedule, generate_schedule, next_generation, Genome};
use classga::models::{Assignment, Course, Day, GenerationRequest, Instructor, Room, SessionSlot};

fn session(room: u128, day: Day, period: usize) -> Assignment {
    Assignment {
        course_id: 1,
        subject_id: 2,
        instructor_id: 3,
        room_id: room,
        slot: SessionSlot { day, period },
    }
}

fn genome(sessions: Vec<Assignment>, fitness: u64) -> Genome {
    Genome { assignments: sessions, fitness }
}

#[test]
fn tournament_winner_is_first_of_highest_fitness() {
    let a = genome(vec![], 10);
    let b = genome(vec![], 30);
    let c = genome(vec![], 30);
    let d = genome(vec![], 20);
    assert_eq!(fittest_candidate(&vec![&a, &b, &c, &d]), 1);
    assert_eq!(fittest_candidate(&vec![&d, &a]), 0);
    assert_eq!(fittest_candidate(&vec![&a]), 0);
    assert_eq!(fittest_candidate(&vec![&a, &d, &c, &b]), 2);
}

#[test]
fn crossover_follows_the_flips() {
    let a = genome(vec![session(10, Day::Monday, 0), session(10, Day::Monday, 1), session(10, Day::Monday, 2)], 7);
    let b = genome(vec![session(20, Day::Friday, 0), session(20, Day::Friday, 1)], 9);
    let child = cross_with(&a, &b, &vec![true, false, true]);
    assert_eq!(child.assignments, vec![session(10, Day::Monday, 0), session(20, Day::Friday, 1)]);
    assert_eq!(child.fitness, 0);
    let child = cross_with(&a, &b, &vec![false, false]);
    assert_eq!(child.assignments, b.assignments);
}

#[test]
fn fittest_schedule_takes_first_best() {
    let pop = vec![
        genome(vec![session(1, Day::Monday, 0)], 9000),
        genome(vec![session(2, Day::Monday, 0)], 9500),
        genome(vec![session(3, Day::Monday, 0)], 9500),
        genome(vec![session(4, Day::Monday, 0)], 100),
    ];
    let s = fittest_schedule(pop);
    assert_eq!(s.fitness, 9500);
    assert_eq!(s.assignments, vec![session(2, Day::Monday, 0)]);
}

fn request() -> GenerationRequest {
    GenerationRequest {
        courses: vec![Course {
            id: 1,
            name: "Algorithms".into(),
            subject_id: 2,
            instructor_id: 3,
            sessions_per_week: 2,
            student_count: 30,
        }],
        instructors: vec![Instructor { id: 3, name: "Ada".into(), max_sessions_per_day: 1 }],
        rooms: vec![Room { id: 10, name: "Lab".into(), capacity: 40 }],
        subjects: vec![],
        days: vec![Day::Monday, Day::Tuesday],
        periods_per_day: 2,
        population_size: 4,
        generations: 1,
        mutation_rate_ppm: 300_000,
    }
}

#[test]
fn next_generation_keeps_the_best_and_stays_valid() {
    let r = request();
    let make = |day: Day, p: usize| {
        let s = vec![session(10, Day::Monday, 0), session(10, day, p)];
        let f = fitness(&s, &r);
        genome(s, f)
    };
    let pop = vec![
        make(Day::Monday, 0),
        make(Day::Monday, 1),
        make(Day::Tuesday, 0),
        make(Day::Tuesday, 1),
    ];
    let best = pop.iter().map(|g| g.fitness).max().unwrap();
    let mut rng = rand::thread_rng();
    let next = next_generation(pop, &r, &mut rng);
    assert_eq!(next.len(), 4);
    assert_eq!(next[0].fitness, best);
    assert_eq!(next[0].assignments, vec![session(10, Day::Monday, 0), session(10, Day::Tuesday, 0)]);
    for g in &next {
        assert_eq!(g.fitness, fitness(&g.assignments, &r));
        assert_eq!(g.assignments.len(), 2);
    }
}

#[test]
fn no_courses_needs_no_room() {
    let mut r = request();
    r.courses.clear();
    r.rooms.clear();
    r.days.clear();
    let s = generate_schedule(&r);
    assert!(s.assignments.is_empty());
    assert_eq!(s.fitness, 10_000);
}

#[test]
fn redrawn_session_takes_what_was_drawn() {
    let a = session(10, Day::Monday, 0);
    let r = classga::ga::redraw_session(a, Some(Day::Friday), 3, Some(20));
    assert_eq!(r, session(20, Day::Friday, 3));
    let r = classga::ga::redraw_session(a, None, 1, None);
    assert_eq!(r, session(10, Day::Monday, 1));
}

#[test]
fn random_genome_reports_its_true_fitness() {
    let r = request();
    let mut rng = rand::thread_rng();
    for _ in 0..20 {
        let g = classga::ga::random_genome(&r, &mut rng);
        assert_eq!(g.assignments.len(), 2);
        assert_eq!(g.fitness, fitness(&g.assignments, &r));
        for a in &g.assignments {
            assert_eq!(a.room_id, 10);
            assert!(a.slot.period < 2);
        }
    }
}

#[test]
fn empty_lists_are_loaded_from_the_store() {
    let mut r = request();
    r.subjects.clear();
    r.days.clear();
    let loads = classga::request::lists_to_load(&r);
    assert!(!loads.courses && !loads.instructors && !loads.rooms);
    assert!(loads.subjects && loads.days);
}
