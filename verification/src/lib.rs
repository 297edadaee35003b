//! Route planning for a school day: a schedule parser, a weekly timetable,
//! and a planner for the walks between classrooms.
pub mod text;
pub mod pattern;
pub mod class;
pub mod semester;
pub mod weekly;
pub mod graph;
pub mod route;
