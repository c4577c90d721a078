# classga

A class scheduler that searches for a timetable with a genetic algorithm,
written in Verus.

- `src/models.rs`: courses, instructors, rooms, subjects, days, sessions and
  generation requests; day names.
- `src/fitness.rs`: the score of a timetable (base score less penalties for
  room clashes, instructor clashes, rooms too small and instructor overload),
  with the laws that each rule break lowers it.
- `src/ga.rs`: random timetables, tournament selection, crossover, mutation,
  elitist generations and `generate_schedule`.
- `src/request.rs`: checking a generation request before it is served.
- `src/records.rs`: the columns that records are stored as, and reading them
  back.
- `src/frontend.rs`: the cards of the admin console.
- `src/random.rs`, `src/text.rs`: the random draws of `rand`, and text equality.
- `app/`: the HTTP server (axum), the SQLite store (rusqlite), the JSON
  shapes (serde) and the server-rendered console (leptos).
