//! The weekly timetable: which class takes each mod of each letter day.
use vstd::prelude::*;
use crate::class::{Class, ClassView, Day};
use crate::semester::class_views;
use crate::text::{chars_of, decimal, decimal_exec, push_all, string_of};

verus! {

/// The letter day of row `d` of the timetable: A, B, I, C, D.
pub open spec fn slot_day(d: int) -> Day {
    if d == 0 {
        Day::A
    } else if d == 1 {
        Day::B
    } else if d == 2 {
        Day::I
    } else if d == 3 {
        Day::C
    } else {
        Day::D
    }
}

fn slot_day_exec(d: usize) -> (r: Day)
    ensures
        r == slot_day(d as int),
{
    if d == 0 {
        Day::A
    } else if d == 1 {
        Day::B
    } else if d == 2 {
        Day::I
    } else if d == 3 {
        Day::C
    } else {
        Day::D
    }
}

/// Whether a mod number names one of the eight mods of a day.
pub open spec fn mod_ok(m: u8) -> bool {
    1 <= m <= 8
}

/// The first mod number in `mods` that names no mod of a day.
pub open spec fn first_bad_mod(mods: Seq<u8>) -> Option<u8>
    decreases mods.len(),
{
    if mods.len() == 0 {
        None
    } else {
        match first_bad_mod(mods.drop_last()) {
            Some(x) => Some(x),
            None => if !mod_ok(mods.last()) {
                Some(mods.last())
            } else {
                None
            },
        }
    }
}

/// The first bad mod number among the classes that meet on `day`, in order.
pub open spec fn first_bad_in_day(classes: Seq<ClassView>, day: Day) -> Option<u8>
    decreases classes.len(),
{
    if classes.len() == 0 {
        None
    } else {
        match first_bad_in_day(classes.drop_last(), day) {
            Some(x) => Some(x),
            None => if classes.last().days.contains(day) {
                first_bad_mod(classes.last().mods)
            } else {
                None
            },
        }
    }
}

/// The first bad mod number met while filling the first `n` rows of the timetable.
pub open spec fn first_bad_week(classes: Seq<ClassView>, n: int) -> Option<u8>
    decreases n,
{
    if n <= 0 {
        None
    } else {
        match first_bad_week(classes, n - 1) {
            Some(x) => Some(x),
            None => first_bad_in_day(classes, slot_day(n - 1)),
        }
    }
}

/// Index of the last class that meets on `day` in mod `m + 1`.
pub open spec fn last_meeting(classes: Seq<ClassView>, day: Day, m: int) -> Option<usize>
    decreases classes.len(),
{
    if classes.len() == 0 {
        None
    } else if classes.last().days.contains(day) && classes.last().mods.contains((m + 1) as u8) {
        Some((classes.len() - 1) as usize)
    } else {
        last_meeting(classes.drop_last(), day, m)
    }
}

proof fn lemma_bad_mod_sticks(mods: Seq<u8>, j: int)
    requires
        0 <= j <= mods.len(),
        first_bad_mod(mods.take(j)) is Some,
    ensures
        first_bad_mod(mods) == first_bad_mod(mods.take(j)),
    decreases mods.len() - j,
{
    if j < mods.len() {
        assert(mods.take(j + 1).drop_last() =~= mods.take(j));
        lemma_bad_mod_sticks(mods, j + 1);
    } else {
        assert(mods.take(j) =~= mods);
    }
}

proof fn lemma_bad_day_sticks(classes: Seq<ClassView>, day: Day, i: int)
    requires
        0 <= i <= classes.len(),
        first_bad_in_day(classes.take(i), day) is Some,
    ensures
        first_bad_in_day(classes, day) == first_bad_in_day(classes.take(i), day),
    decreases classes.len() - i,
{
    if i < classes.len() {
        assert(classes.take(i + 1).drop_last() =~= classes.take(i));
        lemma_bad_day_sticks(classes, day, i + 1);
    } else {
        assert(classes.take(i) =~= classes);
    }
}

proof fn lemma_bad_week_sticks(classes: Seq<ClassView>, n: int, k: int)
    requires
        n <= k,
        first_bad_week(classes, n) is Some,
    ensures
        first_bad_week(classes, k) == first_bad_week(classes, n),
    decreases k - n,
{
    if n < k {
        lemma_bad_week_sticks(classes, n, k - 1);
    }
}

/// The error given for a mod number outside `1..=8`.
pub open spec fn bad_mod_message(m: u8) -> Seq<char> {
    "Unexpected mod value --> "@ + decimal(m as nat)
}

/// What the timetable holds: slot `[d][m]` is the last class that meets on
/// letter day `slot_day(d)` in mod `m + 1`, or `None` when no class does.
pub open spec fn timetable_spec(classes: Seq<ClassView>, g: [[Option<usize>; 8]; 5]) -> bool {
    forall|d: int, m: int|
        0 <= d < 5 && 0 <= m < 8 ==> #[trigger] g[d][m] == last_meeting(classes, slot_day(d), m)
}

/// Builds the weekly timetable of a semester's classes: for each letter day
/// (A, B, I, C, D) and each of its eight mods, the index of the class held
/// then (`None` for a free mod). A class meeting on a day with a mod number
/// outside `1..=8` makes it fail.
pub fn path(weekly_schedule: &Vec<Class>) -> (r: Result<[[Option<usize>; 8]; 5], String>)
    ensures
        match r {
            Ok(g) => first_bad_week(class_views(weekly_schedule@), 5) is None && timetable_spec(
                class_views(weekly_schedule@),
                g,
            ),
            Err(e) => first_bad_week(class_views(weekly_schedule@), 5) matches Some(m) && e@
                == bad_mod_message(m),
        },
{
    let ghost cv = class_views(weekly_schedule@);
    let mut grid: [[Option<usize>; 8]; 5] = [[None; 8]; 5];
    for d in 0..5
        invariant
            cv == class_views(weekly_schedule@),
            first_bad_week(cv, d as int) is None,
            forall|dd: int, m: int|
                0 <= dd < d && 0 <= m < 8 ==> #[trigger] grid[dd][m] == last_meeting(
                    cv,
                    slot_day(dd),
                    m,
                ),
            forall|dd: int, m: int| d <= dd < 5 && 0 <= m < 8 ==> #[trigger] grid[dd][m] is None,
    {
        let letter = slot_day_exec(d);
        for i in 0..weekly_schedule.len()
            invariant
                0 <= d < 5,
                letter == slot_day(d as int),
                cv == class_views(weekly_schedule@),
                cv.len() == weekly_schedule@.len(),
                first_bad_week(cv, d as int) is None,
                first_bad_in_day(cv.take(i as int), letter) is None,
                forall|dd: int, m: int|
                    0 <= dd < d && 0 <= m < 8 ==> #[trigger] grid[dd][m] == last_meeting(
                        cv,
                        slot_day(dd),
                        m,
                    ),
                forall|dd: int, m: int|
                    d < dd < 5 && 0 <= m < 8 ==> #[trigger] grid[dd][m] is None,
                forall|m: int|
                    0 <= m < 8 ==> #[trigger] grid[d as int][m] == last_meeting(
                        cv.take(i as int),
                        letter,
                        m,
                    ),
        {
            let class = &weekly_schedule[i];
            assert(cv[i as int] == class@);
            assert(cv.take(i + 1).drop_last() =~= cv.take(i as int));
            assert(cv.take(i + 1).last() == class@);
            if class.meets_on(letter) {
                let ghost prev = grid;
                for j in 0..class.mods.len()
                    invariant
                        0 <= d < 5,
                        letter == slot_day(d as int),
                        class@.days.contains(letter),
                        cv == class_views(weekly_schedule@),
                        cv.len() == weekly_schedule@.len(),
                        0 <= i < cv.len(),
                        cv[i as int] == class@,
                        cv.take(i + 1).drop_last() == cv.take(i as int),
                        cv.take(i + 1).last() == class@,
                        first_bad_week(cv, d as int) is None,
                        first_bad_in_day(cv.take(i as int), letter) is None,
                        first_bad_mod(class@.mods.take(j as int)) is None,
                        forall|dd: int, m: int|
                            0 <= dd < 5 && dd != d && 0 <= m < 8 ==> #[trigger] grid[dd][m]
                                == prev[dd][m],
                        forall|m: int|
                            0 <= m < 8 ==> #[trigger] grid[d as int][m] == if class@.mods.take(
                                j as int,
                            ).contains((m + 1) as u8) {
                                Some(i)
                            } else {
                                prev[d as int][m]
                            },
                {
                    let mod_num = class.mods[j];
                    assert(class@.mods.take(j + 1).drop_last() =~= class@.mods.take(j as int));
                    assert(class@.mods.take(j + 1).last() == mod_num);
                    if mod_num == 0 || mod_num > 8 {
                        let mut v = chars_of("Unexpected mod value --> ");
                        let n = decimal_exec(mod_num as usize);
                        push_all(&mut v, &n);
                        proof {
                            lemma_bad_mod_sticks(class@.mods, j + 1);
                            assert(first_bad_in_day(cv.take(i + 1), letter) == Some(mod_num));
                            lemma_bad_day_sticks(cv, letter, i + 1);
                            assert(first_bad_week(cv, d + 1) == Some(mod_num));
                            lemma_bad_week_sticks(cv, d + 1, 5);
                        }
                        return Err(string_of(&v));
                    }
                    let index = (mod_num - 1) as usize;
                    grid[d][index] = Some(i);
                    assert forall|m: int| 0 <= m < 8 implies #[trigger] grid[d as int][m] == if class@.mods.take(
                        j + 1,
                    ).contains((m + 1) as u8) {
                        Some(i)
                    } else {
                        prev[d as int][m]
                    } by {
                        assert(class@.mods.take(j + 1) =~= class@.mods.take(j as int).push(
                            mod_num,
                        ));
                        if m == index {
                            assert(class@.mods.take(j + 1)[j as int] == mod_num);
                        } else {
                            assert(class@.mods.take(j + 1).contains((m + 1) as u8)
                                == class@.mods.take(j as int).contains((m + 1) as u8));
                        }
                    }
                }
                assert(class@.mods.take(class@.mods.len() as int) =~= class@.mods);
            }
        }
        assert(cv.take(cv.len() as int) =~= cv);
    }
    Ok(grid)
}

/// A slot of the timetable holds the last class, in schedule order, that
/// meets on that letter day in that mod; a free slot means no class does.
pub proof fn lemma_slot_is_last_meeting(classes: Seq<ClassView>, day: Day, m: int)
    requires
        0 <= m < 8,
        classes.len() <= usize::MAX,
    ensures
        last_meeting(classes, day, m) matches Some(i) ==> {
            &&& i < classes.len()
            &&& classes[i as int].days.contains(day)
            &&& classes[i as int].mods.contains((m + 1) as u8)
            &&& forall|j: int|
                i < j < classes.len() ==> !(#[trigger] classes[j].days.contains(day)
                    && classes[j].mods.contains((m + 1) as u8))
        },
        last_meeting(classes, day, m) is None ==> forall|j: int|
            0 <= j < classes.len() ==> !(#[trigger] classes[j].days.contains(day)
                && classes[j].mods.contains((m + 1) as u8)),
    decreases classes.len(),
{
    if classes.len() > 0 {
        let rest = classes.drop_last();
        lemma_slot_is_last_meeting(rest, day, m);
        assert forall|j: int| 0 <= j < rest.len() implies #[trigger] classes[j] == rest[j] by {}
    }
}

/// Whether class `c` meets on `day` in mod `m + 1`.
pub open spec fn meets(c: ClassView, day: Day, m: int) -> bool {
    c.days.contains(day) && c.mods.contains((m + 1) as u8)
}

/// Row `d` of a timetable holds `day`: each of its slots holds the last
/// class that meets on `day` in that mod, and is free when none does.
pub open spec fn row_holds(classes: Seq<ClassView>, g: [[Option<usize>; 8]; 5], d: int, day: Day) -> bool {
    forall|m: int|
        0 <= m < 8 ==> match #[trigger] g[d][m] {
            Some(i) => i < classes.len() && meets(classes[i as int], day, m) && forall|j: int|
                i < j < classes.len() ==> !meets(classes[j], day, m),
            None => forall|j: int| 0 <= j < classes.len() ==> !meets(classes[j], day, m),
        }
}

proof fn lemma_row(classes: Seq<ClassView>, g: [[Option<usize>; 8]; 5], d: int)
    requires
        0 <= d < 5,
        timetable_spec(classes, g),
        classes.len() <= usize::MAX,
    ensures
        row_holds(classes, g, d, slot_day(d)),
{
    assert forall|m: int| 0 <= m < 8 implies match #[trigger] g[d][m] {
        Some(i) => i < classes.len() && meets(classes[i as int], slot_day(d), m) && forall|j: int|
            i < j < classes.len() ==> !meets(classes[j], slot_day(d), m),
        None => forall|j: int| 0 <= j < classes.len() ==> !meets(classes[j], slot_day(d), m),
    } by {
        lemma_slot_is_last_meeting(classes, slot_day(d), m);
        assert(g[d][m] == last_meeting(classes, slot_day(d), m));
    }
}

/// The rows of the timetable are the letter days A, B, I, C, D, in that
/// order: row 3, say, holds the classes that meet on C day and row 4 those
/// that meet on D day.
pub proof fn lemma_rows_are_letter_days(classes: Seq<ClassView>, g: [[Option<usize>; 8]; 5])
    requires
        timetable_spec(classes, g),
        classes.len() <= usize::MAX,
    ensures
        row_holds(classes, g, 0, Day::A),
        row_holds(classes, g, 1, Day::B),
        row_holds(classes, g, 2, Day::I),
        row_holds(classes, g, 3, Day::C),
        row_holds(classes, g, 4, Day::D),
{
    lemma_row(classes, g, 0);
    lemma_row(classes, g, 1);
    lemma_row(classes, g, 2);
    lemma_row(classes, g, 3);
    lemma_row(classes, g, 4);
}

} // verus!
