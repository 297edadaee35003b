# hallway

Walking directions for a school day. A student pastes the schedule that the
school's portal prints; the library reads it into classes, lays the classes
out on a weekly timetable (letter days A, B, I, C, D with eight mods each),
and plans the walks of each day between the classrooms, from the chosen
entrance to the chosen exit, optionally through the lunch hall.

Layout:

- `src/` — the verified library.
  - `text.rs`: character-sequence operations (lines, trim, split, replace,
    decimal numbers) with their specifications.
  - `pattern.rs`: regular expressions through the `regex` crate.
  - `class.rs`: classes, days and mods, and the day and mod field parsers.
  - `semester.rs`: splitting a pasted schedule into semesters, rows and classes.
  - `weekly.rs`: the weekly timetable.
  - `graph.rs`: map nodes, look-ups, and reading back a path from
    predecessor links.
  - `route.rs`: planning each day's walks.
- `tests/` — tests of the library.
- `app/` — the web server: pages, the map file, the shortest-path search
  (floating-point distances), and the JSON answers.
