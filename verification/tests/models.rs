use classga::frontend::dashboard_nav_items;
use classga::models::Day;
use classga::request::{schedule_for, validate_request, RequestError};
use classga::text::text_equals;
use classga::models::{Course, GenerationRequest, Instructor, Room, Subject};

const ALL_DAYS: [Day; 6] =
    [Day::Monday, Day::Tuesday, Day::Wednesday, Day::Thursday, Day::Friday, Day::Saturday];

#[test]
fn day_names() {
    assert_eq!(Day::Monday.as_str(), "Monday");
    assert_eq!(Day::Tuesday.as_str(), "Tuesday");
    assert_eq!(Day::Wednesday.as_str(), "Wednesday");
    assert_eq!(Day::Thursday.as_str(), "Thursday");
    assert_eq!(Day::Friday.as_str(), "Friday");
    assert_eq!(Day::Saturday.as_str(), "Saturday");
}

#[test]
fn day_names_read_back() {
    for d in ALL_DAYS {
        assert_eq!(Day::from_str(d.as_str()), d);
    }
}

#[test]
fn unknown_day_name_reads_as_monday() {
    assert_eq!(Day::from_str("Sunday"), Day::Monday);
    assert_eq!(Day::from_str("friday"), Day::Monday);
    assert_eq!(Day::from_str(""), Day::Monday);
    assert_eq!(Day::from_str("Friday "), Day::Monday);
}

#[test]
fn text_equality() {
    assert!(text_equals("Wednesday", "Wednesday"));
    assert!(text_equals("", ""));
    assert!(!text_equals("Wed", "Wednesday"));
    assert!(!text_equals("Tuesday", "Thursday"));
    assert!(text_equals("é", "é"));
}

fn request() -> GenerationRequest {
    GenerationRequest {
        courses: vec![Course {
            id: 1,
            name: "Algorithms".into(),
            subject_id: 2,
            instructor_id: 3,
            sessions_per_week: 2,
            student_count: 30,
        }],
        instructors: vec![Instructor { id: 3, name: "Ada".into(), max_sessions_per_day: 2 }],
        rooms: vec![Room { id: 4, name: "Lab".into(), capacity: 40 }],
        subjects: vec![Subject { id: 2, name: "Computer Science".into() }],
        days: vec![Day::Monday],
        periods_per_day: 3,
        population_size: 4,
        generations: 2,
        mutation_rate_ppm: 150_000,
    }
}

#[test]
fn complete_request_is_valid() {
    assert!(validate_request(&request()).is_ok());
    let schedule = schedule_for(&request()).unwrap();
    assert_eq!(schedule.assignments.len(), 2);
}

#[test]
fn missing_data_is_refused() {
    let mut r = request();
    r.subjects.clear();
    assert_eq!(validate_request(&r), Err(RequestError::MissingData));
    let mut r = request();
    r.rooms.clear();
    assert_eq!(schedule_for(&r).err(), Some(RequestError::MissingData));
    let mut r = request();
    r.days.clear();
    r.periods_per_day = 0;
    assert_eq!(validate_request(&r), Err(RequestError::MissingData));
}

#[test]
fn zero_periods_is_refused() {
    let mut r = request();
    r.periods_per_day = 0;
    assert_eq!(validate_request(&r), Err(RequestError::NoPeriods));
    assert_eq!(schedule_for(&r).err(), Some(RequestError::NoPeriods));
}

#[test]
fn error_messages() {
    assert_eq!(
        RequestError::MissingData.message(),
        "courses, instructors, rooms, subjects and days are required"
    );
    assert_eq!(RequestError::NoPeriods.message(), "periods_per_day must be greater than 0");
}

#[test]
fn dashboard_cards() {
    let items = dashboard_nav_items();
    let ids: Vec<&str> = items.iter().map(|i| i.id).collect();
    assert_eq!(ids, vec!["courses", "instructors", "rooms", "generation"]);
    assert_eq!(items[3].title, "Schedule Generation");
}

#[test]
fn dashboard_page_wraps_the_rendered_body() {
    let content = "<main>cards</main>";
    let expected = format!(
        r#"<!doctype html>
<html lang=\"en\">
<head>
<meta charset=\"utf-8\" />
<meta name=\"viewport\" content=\"width=device-width, initial-scale=1\" />
<title>ClassGA Console</title>
<style>
:root {{ font-family: Inter, system-ui, sans-serif; color-scheme: light dark; }}
body {{ margin: 0; background: #0b1020; color: #e2e8f0; }}
.layout {{ max-width: 1100px; margin: 0 auto; padding: 2rem 1rem 4rem; }}
.hero {{ margin-bottom: 1.75rem; }}
.eyebrow {{ text-transform: uppercase; letter-spacing: 0.08em; color: #93c5fd; font-size: 0.8rem; }}
.grid {{ display: grid; grid-template-columns: repeat(auto-fit, minmax(220px, 1fr)); gap: 1rem; }}
.card {{ border: 1px solid #334155; border-radius: 0.75rem; padding: 1rem; background: #131a2b; }}
button {{ border-radius: 0.5rem; border: none; padding: 0.6rem 0.8rem; background: #3b82f6; color: white; cursor: pointer; }}
.roadmap {{ margin-top: 1.75rem; border-left: 4px solid #3b82f6; padding-left: 1rem; }}
</style>
</head>
<body>{content}</body>
</html>"#
    );
    assert_eq!(classga::frontend::dashboard_page(content), expected);
    assert!(classga::frontend::dashboard_page("").starts_with("<!doctype html>"));
}
