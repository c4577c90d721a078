//! Class scheduling with a genetic algorithm: domain models, the fitness
//! function that scores a timetable, the evolutionary search itself, the
//! validation of a generation request and the row encoding used by the store.

pub mod fitness;
pub mod frontend;
pub mod ga;
pub mod models;
mod random;
pub mod records;
pub mod request;
pub mod text;
