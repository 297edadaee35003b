//! Planning the walks of each school day from a weekly timetable: which
//! rooms follow each other, where the day starts and ends, and the detour to
//! the lunch hall.
use vstd::prelude::*;
use crate::class::{collect_all, lemma_collect_err_sticks, lemma_collect_step, Class, ClassView};
use crate::graph::{name_lookup, name_to_id, Node};
use crate::semester::class_views;
use crate::text::{chars_eq, chars_of, lowercase, push_all, string_of, to_lowercase};

verus! {

/// A door through which the building is entered or left.
#[derive(Debug, PartialEq, Eq, Copy, Clone, Structural)]
pub enum EnterExit {
    WestMain,
    EastMain,
    D13,
    D6,
}

/// The map node of the lunch hall.
pub const LEX_NODE: usize = 55;

impl EnterExit {
    /// The map node of the door.
    pub open spec fn spec_node(self) -> usize {
        match self {
            EnterExit::WestMain => 146,
            EnterExit::EastMain => 0,
            EnterExit::D13 => 145,
            EnterExit::D6 => 147,
        }
    }

    /// The map node of the door.
    pub fn node(&self) -> (r: usize)
        ensures
            r == self.spec_node(),
    {
        match self {
            EnterExit::WestMain => 146,
            EnterExit::EastMain => 0,
            EnterExit::D13 => 145,
            EnterExit::D6 => 147,
        }
    }
}

/// The door a request names: `west`, `east`, `d13` or `d6`.
pub open spec fn door_named(name: Seq<char>) -> Option<EnterExit> {
    if name == "west"@ {
        Some(EnterExit::WestMain)
    } else if name == "east"@ {
        Some(EnterExit::EastMain)
    } else if name == "d13"@ {
        Some(EnterExit::D13)
    } else if name == "d6"@ {
        Some(EnterExit::D6)
    } else {
        None
    }
}

impl EnterExit {
    /// The door a request names, if any.
    pub fn from_name(name: &str) -> (r: Option<EnterExit>)
        ensures
            r == door_named(name@),
    {
        let n = chars_of(name);
        if chars_eq(&n, &chars_of("west")) {
            Some(EnterExit::WestMain)
        } else if chars_eq(&n, &chars_of("east")) {
            Some(EnterExit::EastMain)
        } else if chars_eq(&n, &chars_of("d13")) {
            Some(EnterExit::D13)
        } else if chars_eq(&n, &chars_of("d6")) {
            Some(EnterExit::D6)
        } else {
            None
        }
    }
}

/// A walk from one class's room to the room of the next class held that day.
pub struct Hop {
    pub from: usize,
    pub to: usize,
    pub here: Class,
    pub next: Class,
}

pub struct HopView {
    pub from: usize,
    pub to: usize,
    pub here: ClassView,
    pub next: ClassView,
}

impl View for Hop {
    type V = HopView;

    open spec fn view(&self) -> HopView {
        HopView { from: self.from, to: self.to, here: self.here@, next: self.next@ }
    }
}

/// The views of the entries of a day: hops, and `None` for the lunch break.
pub open spec fn entry_views(v: Seq<Option<Hop>>) -> Seq<Option<HopView>> {
    v.map_values(
        |e: Option<Hop>|
            match e {
                Some(h) => Some(h@),
                None => None,
            },
    )
}

/// The room of a timetable slot (empty for a free mod).
pub open spec fn slot_room(classes: Seq<ClassView>, slot: Option<usize>) -> Seq<char> {
    match slot {
        Some(i) => classes[i as int].room,
        None => seq![],
    }
}

/// The first slot at or after `k` whose room is not empty.
pub open spec fn next_room_slot(classes: Seq<ClassView>, day: Seq<Option<usize>>, k: int) -> Option<
    int,
>
    decreases 8 - k,
{
    if k >= 8 {
        None
    } else if slot_room(classes, day[k]).len() > 0 {
        Some(k)
    } else {
        next_room_slot(classes, day, k + 1)
    }
}

/// The error given for a room that is not on the map.
pub open spec fn unknown_room(room: Seq<char>) -> Seq<char> {
    "The room '"@ + room + "' was not recognized"@
}

/// The entries of a day after looking at slot `num`, given those before it:
/// the lunch break goes before the fourth slot, and a class whose room is
/// known adds a hop to the next class in a different room.
pub open spec fn entry_step(
    classes: Seq<ClassView>,
    nodes: Seq<Node>,
    day: Seq<Option<usize>>,
    num: int,
    v: Seq<Option<HopView>>,
) -> Result<Seq<Option<HopView>>, Seq<char>> {
    let v1 = if num == 3 {
        v.push(None)
    } else {
        v
    };
    let room = lowercase(slot_room(classes, day[num]));
    if room.len() == 0 {
        Ok(v1)
    } else {
        match name_lookup(nodes, room) {
            None => Err(unknown_room(room)),
            Some(from) => match next_room_slot(classes, day, num + 1) {
                None => Ok(v1),
                Some(k) => match name_lookup(nodes, lowercase(slot_room(classes, day[k]))) {
                    None => Err(unknown_room(slot_room(classes, day[k]))),
                    Some(to) => if from != to {
                        Ok(
                            v1.push(
                                Some(
                                    HopView {
                                        from,
                                        to,
                                        here: classes[day[num]->0 as int],
                                        next: classes[day[k]->0 as int],
                                    },
                                ),
                            ),
                        )
                    } else {
                        Ok(v1)
                    },
                },
            },
        }
    }
}

/// The entries of a day after its first `n` slots.
pub open spec fn day_entries(
    classes: Seq<ClassView>,
    nodes: Seq<Node>,
    day: Seq<Option<usize>>,
    n: int,
) -> Result<Seq<Option<HopView>>, Seq<char>>
    decreases n,
{
    if n <= 0 {
        Ok(seq![])
    } else {
        match day_entries(classes, nodes, day, n - 1) {
            Err(e) => Err(e),
            Ok(v) => entry_step(classes, nodes, day, n - 1, v),
        }
    }
}

proof fn lemma_entries_err_sticks(
    classes: Seq<ClassView>,
    nodes: Seq<Node>,
    day: Seq<Option<usize>>,
    n: int,
    m: int,
)
    requires
        0 <= n <= m,
        day_entries(classes, nodes, day, n) is Err,
    ensures
        day_entries(classes, nodes, day, m) == day_entries(classes, nodes, day, n),
    decreases m - n,
{
    if n < m {
        lemma_entries_err_sticks(classes, nodes, day, n, m - 1);
    }
}

/// Whether every slot of the timetable names a class of `classes`.
pub open spec fn slots_valid(schedule: [[Option<usize>; 8]; 5], n: nat) -> bool {
    forall|d: int, k: int|
        0 <= d < 5 && 0 <= k < 8 ==> (#[trigger] schedule[d][k] matches Some(i) ==> i < n)
}

fn slot_room_exec(slot: Option<usize>, classes: &Vec<Class>) -> (r: String)
    requires
        slot matches Some(i) ==> i < classes@.len(),
    ensures
        r@ == slot_room(class_views(classes@), slot),
{
    match slot {
        Some(i) => classes[i].room.clone(),
        None => String::new(),
    }
}

fn room_message(room: &str) -> (r: String)
    ensures
        r@ == unknown_room(room@),
{
    let mut v = chars_of("The room '");
    let c = chars_of(room);
    push_all(&mut v, &c);
    let t = chars_of("' was not recognized");
    push_all(&mut v, &t);
    string_of(&v)
}

fn entry_step_exec(
    day: &[Option<usize>; 8],
    classes: &Vec<Class>,
    nodes: &[Node],
    num: usize,
    v: &mut Vec<Option<Hop>>,
) -> (r: Result<(), String>)
    requires
        num < 8,
        forall|k: int| 0 <= k < 8 ==> (#[trigger] day@[k] matches Some(i) ==> i < classes@.len()),
    ensures
        match r {
            Ok(()) => entry_step(class_views(classes@), nodes@, day@, num as int, entry_views(old(v)@))
                == Ok::<Seq<Option<HopView>>, Seq<char>>(entry_views(final(v)@)),
            Err(e) => entry_step(class_views(classes@), nodes@, day@, num as int, entry_views(old(v)@))
                == Err::<Seq<Option<HopView>>, Seq<char>>(e@),
        },
{
    let ghost cv = class_views(classes@);
    let ghost before = entry_views(v@);
    if num == 3 {
        v.push(None);
    }
    assert(entry_views(v@) =~= if num == 3 {
        before.push(None)
    } else {
        before
    });
    let raw = slot_room_exec(day[num], classes);
    let room = to_lowercase(raw.as_str());
    if room.as_str().is_empty() {
        return Ok(());
    }
    let from = match name_to_id(room.as_str(), nodes) {
        Some(id) => id,
        None => return Err(room_message(room.as_str())),
    };
    let mut k = num + 1;
    while k < 8
        invariant
            num < k <= 8,
            cv == class_views(classes@),
            cv.len() == classes@.len(),
            forall|j: int| 0 <= j < 8 ==> (#[trigger] day@[j] matches Some(i) ==> i < classes@.len()),
            next_room_slot(cv, day@, num + 1) == next_room_slot(cv, day@, k as int),
        ensures
            k == 8 || slot_room(cv, day@[k as int]).len() > 0,
        decreases 8 - k,
    {
        let r = slot_room_exec(day[k], classes);
        if !r.as_str().is_empty() {
            break;
        }
        k = k + 1;
    }
    if k == 8 {
        return Ok(());
    }
    let next_raw = slot_room_exec(day[k], classes);
    assert(next_room_slot(cv, day@, num + 1) == Some(k as int));
    let next_room = to_lowercase(next_raw.as_str());
    let to = match name_to_id(next_room.as_str(), nodes) {
        Some(id) => id,
        None => return Err(room_message(next_raw.as_str())),
    };
    if from != to {
        let here = classes[day[num].unwrap()].duplicate();
        let next = classes[day[k].unwrap()].duplicate();
        let ghost pre = v@;
        v.push(Some(Hop { from, to, here, next }));
        assert(entry_views(v@) =~= entry_views(pre).push(entry_views(v@).last()));
    }
    Ok(())
}

/// The entries of one day of the timetable: the hops between the rooms of
/// consecutive classes, and `None` where the lunch break falls.
pub fn day_entries_exec(day: &[Option<usize>; 8], classes: &Vec<Class>, nodes: &[Node]) -> (r:
    Result<Vec<Option<Hop>>, String>)
    requires
        forall|k: int| 0 <= k < 8 ==> (#[trigger] day@[k] matches Some(i) ==> i < classes@.len()),
    ensures
        match r {
            Ok(v) => day_entries(class_views(classes@), nodes@, day@, 8) == Ok::<
                Seq<Option<HopView>>,
                Seq<char>,
            >(entry_views(v@)),
            Err(e) => day_entries(class_views(classes@), nodes@, day@, 8) == Err::<
                Seq<Option<HopView>>,
                Seq<char>,
            >(e@),
        },
{
    let ghost cv = class_views(classes@);
    let mut v: Vec<Option<Hop>> = Vec::new();
    assert(entry_views(v@) =~= seq![]);
    for num in 0..8
        invariant
            cv == class_views(classes@),
            forall|k: int| 0 <= k < 8 ==> (#[trigger] day@[k] matches Some(i) ==> i < classes@.len()),
            day_entries(cv, nodes@, day@, num as int) == Ok::<Seq<Option<HopView>>, Seq<char>>(
                entry_views(v@),
            ),
    {
        match entry_step_exec(day, classes, nodes, num, &mut v) {
            Ok(()) => {},
            Err(e) => {
                proof {
                    lemma_entries_err_sticks(cv, nodes@, day@, num + 1, 8);
                }
                return Err(e);
            },
        }
    }
    Ok(v)
}

/// A walk to plan: from one map node to another, with the class left behind
/// (if any) and the class walked to (if any).
pub struct Leg {
    pub from: usize,
    pub to: usize,
    pub before: Option<Class>,
    pub after: Option<Class>,
}

pub struct LegView {
    pub from: usize,
    pub to: usize,
    pub before: Option<ClassView>,
    pub after: Option<ClassView>,
}

/// The view of an optional class.
pub open spec fn class_opt(c: Option<Class>) -> Option<ClassView> {
    match c {
        Some(c) => Some(c@),
        None => None,
    }
}

impl View for Leg {
    type V = LegView;

    open spec fn view(&self) -> LegView {
        LegView {
            from: self.from,
            to: self.to,
            before: class_opt(self.before),
            after: class_opt(self.after),
        }
    }
}

/// The views of a list of legs.
pub open spec fn leg_views(v: Seq<Leg>) -> Seq<LegView> {
    v.map_values(|l: Leg| l@)
}

/// The entry looked back to from entry `it` (entry 0 looks at itself).
pub open spec fn prev_index(it: int) -> int {
    if it > 0 {
        it - 1
    } else {
        0
    }
}

/// Whether entry `it` is a lunch break after a hop with no hop after it.
pub open spec fn breaks_at(e: Seq<Option<HopView>>, it: int) -> bool {
    e[it] is None && e[prev_index(it)] is Some && (it + 1 >= e.len() || e[it + 1] is None)
}

/// Whether planning the day would look for a hop after a lunch break that
/// has none.
pub open spec fn day_breaks(e: Seq<Option<HopView>>) -> bool {
    exists|it: int| 0 <= it < e.len() && breaks_at(e, it)
}

/// The legs planned for entry `it` of a day. A hop right after the lunch
/// break is not walked on its own: the break joins the room before it to
/// the room that hop leads to, through the lunch hall when `checked`.
pub open spec fn middle_legs(e: Seq<Option<HopView>>, it: int, checked: bool) -> Seq<LegView> {
    match e[it] {
        None => match e[prev_index(it)] {
            Some(p) => {
                let n = e[it + 1]->0;
                if checked {
                    seq![
                        LegView { from: p.to, to: LEX_NODE, before: Some(p.here), after: None },
                        LegView { from: LEX_NODE, to: n.to, before: None, after: Some(n.next) },
                    ]
                } else {
                    seq![
                        LegView { from: p.to, to: n.to, before: Some(p.next), after: Some(n.next) },
                    ]
                }
            },
            None => seq![],
        },
        Some(h) => match e[prev_index(it)] {
            Some(_) => seq![
                LegView { from: h.from, to: h.to, before: Some(h.here), after: Some(h.next) },
            ],
            None => seq![],
        },
    }
}

/// The legs of day `d`: from the entrance to the first room, the legs of
/// the entries, and from the last room to the exit. The entrance and exit
/// legs are planned only when the day has more than `d` entries.
pub open spec fn plan_day(
    d: int,
    e: Seq<Option<HopView>>,
    entrance: usize,
    exit: usize,
    checked: bool,
) -> Seq<LegView> {
    plan_head(d, e, entrance) + Seq::new(e.len(), |it: int| middle_legs(e, it, checked)).flatten_alt()
        + plan_tail(d, e, exit)
}

/// The leg from the entrance to the first room of day `d`, if planned.
pub open spec fn plan_head(d: int, e: Seq<Option<HopView>>, entrance: usize) -> Seq<LegView> {
    if e.len() > d {
        seq![
            LegView {
                from: entrance,
                to: match e[0] {
                    Some(h) => h.from,
                    None => LEX_NODE,
                },
                before: None,
                after: match e[0] {
                    Some(h) => Some(h.here),
                    None => None,
                },
            },
        ]
    } else {
        seq![]
    }
}

/// The leg from the last room of day `d` to the exit, if planned.
pub open spec fn plan_tail(d: int, e: Seq<Option<HopView>>, exit: usize) -> Seq<LegView> {
    if e.len() > d {
        seq![
            LegView {
                from: match e.last() {
                    Some(h) => h.to,
                    None => LEX_NODE,
                },
                to: exit,
                before: match e.last() {
                    Some(h) => Some(h.next),
                    None => None,
                },
                after: None,
            },
        ]
    } else {
        seq![]
    }
}

fn dup_opt(c: &Option<Class>) -> (r: Option<Class>)
    ensures
        class_opt(r) == class_opt(*c),
{
    match c {
        Some(c) => Some(c.duplicate()),
        None => None,
    }
}

proof fn lemma_entry_view_at(e: Seq<Option<Hop>>, i: int)
    requires
        0 <= i < e.len(),
    ensures
        entry_views(e)[i] == match e[i] {
            Some(h) => Some(h@),
            None => None::<HopView>,
        },
{
}

/// Whether entry `it` is a lunch break after a hop with no hop after it.
pub fn breaks_at_exec(e: &Vec<Option<Hop>>, it: usize) -> (r: bool)
    requires
        it < e@.len(),
    ensures
        r == breaks_at(entry_views(e@), it as int),
{
    let p = if it > 0 {
        it - 1
    } else {
        0
    };
    proof {
        lemma_entry_view_at(e@, (it) as int);
    }
    proof {
        lemma_entry_view_at(e@, (p) as int);
    }
    if it < e.len() - 1 {
        proof {
        lemma_entry_view_at(e@, (it + 1) as int);
    }
    }
    e[it].is_none() && e[p].is_some() && (it + 1 >= e.len() || e[it + 1].is_none())
}

/// Whether planning the day would look for a hop after a lunch break that
/// has none.
pub fn day_breaks_exec(e: &Vec<Option<Hop>>) -> (r: bool)
    ensures
        r == day_breaks(entry_views(e@)),
{
    for it in 0..e.len()
        invariant
            forall|j: int| 0 <= j < it ==> !breaks_at(entry_views(e@), j),
    {
        if breaks_at_exec(e, it) {
            return true;
        }
    }
    false
}

fn middle_legs_exec(e: &Vec<Option<Hop>>, it: usize, checked: bool, legs: &mut Vec<Leg>)
    requires
        it < e@.len(),
        !breaks_at(entry_views(e@), it as int),
    ensures
        leg_views(final(legs)@) == leg_views(old(legs)@) + middle_legs(
            entry_views(e@),
            it as int,
            checked,
        ),
{
    let ghost ev = entry_views(e@);
    let ghost before = leg_views(legs@);
    let p = if it > 0 {
        it - 1
    } else {
        0
    };
    proof {
        lemma_entry_view_at(e@, (it) as int);
    }
    proof {
        lemma_entry_view_at(e@, (p) as int);
    }
    match (&e[it], &e[p]) {
        (None, Some(prev)) => {
            let n = e.len();
            assert(it + 1 < n);
            proof {
        lemma_entry_view_at(e@, (it + 1) as int);
    }
            let next = e[it + 1].as_ref().unwrap();
            if checked {
                legs.push(
                    Leg {
                        from: prev.to,
                        to: LEX_NODE,
                        before: Some(prev.here.duplicate()),
                        after: None,
                    },
                );
                legs.push(
                    Leg {
                        from: LEX_NODE,
                        to: next.to,
                        before: None,
                        after: Some(next.next.duplicate()),
                    },
                );
            } else {
                legs.push(
                    Leg {
                        from: prev.to,
                        to: next.to,
                        before: Some(prev.next.duplicate()),
                        after: Some(next.next.duplicate()),
                    },
                );
            }
        },
        (Some(h), Some(_)) => {
            legs.push(
                Leg {
                    from: h.from,
                    to: h.to,
                    before: Some(h.here.duplicate()),
                    after: Some(h.next.duplicate()),
                },
            );
        },
        _ => {},
    }
    assert(leg_views(legs@) =~= before + middle_legs(ev, it as int, checked));
}

/// The legs of day `d` from its entries (see `plan_day`).
pub fn plan_day_exec(
    d: usize,
    e: &Vec<Option<Hop>>,
    entrance: usize,
    exit: usize,
    checked: bool,
) -> (r: Vec<Leg>)
    requires
        !day_breaks(entry_views(e@)),
    ensures
        leg_views(r@) == plan_day(d as int, entry_views(e@), entrance, exit, checked),
{
    let ghost ev = entry_views(e@);
    let ghost mids = Seq::new(ev.len(), |it: int| middle_legs(ev, it, checked));
    let mut legs: Vec<Leg> = Vec::new();
    let has_ends = e.len() > d;
    if has_ends {
        proof {
        lemma_entry_view_at(e@, (0) as int);
    }
        let (to, after) = match &e[0] {
            Some(h) => (h.from, Some(h.here.duplicate())),
            None => (LEX_NODE, None),
        };
        legs.push(Leg { from: entrance, to, before: None, after });
    }
    let ghost head = leg_views(legs@);
    assert(head =~= plan_head(d as int, ev, entrance));
    assert(mids.take(0) =~= seq![]);
    for it in 0..e.len()
        invariant
            ev == entry_views(e@),
            ev.len() == e@.len(),
            mids == Seq::new(ev.len(), |it: int| middle_legs(ev, it, checked)),
            !day_breaks(ev),
            leg_views(legs@) == head + mids.take(it as int).flatten_alt(),
    {
        assert(!breaks_at(ev, it as int));
        middle_legs_exec(e, it, checked, &mut legs);
        assert(mids.take(it + 1).drop_last() =~= mids.take(it as int));
        assert(mids.take(it + 1).last() == mids[it as int]);
    }
    assert(mids.take(ev.len() as int) =~= mids);
    if has_ends {
        let last = e.len() - 1;
        proof {
        lemma_entry_view_at(e@, (last) as int);
    }
        let (from, before) = match &e[last] {
            Some(h) => (h.to, Some(h.next.duplicate())),
            None => (LEX_NODE, None),
        };
        let ghost pre = leg_views(legs@);
        legs.push(Leg { from, to: exit, before, after: None });
        assert(leg_views(legs@) =~= pre + plan_tail(d as int, ev, exit));
    } else {
        assert(leg_views(legs@) =~= leg_views(legs@) + plan_tail(d as int, ev, exit));
    }
    assert(leg_views(legs@) =~= plan_day(d as int, ev, entrance, exit, checked));
    legs
}

/// The entries of every day of the timetable, or the first error.
pub open spec fn week_entries(
    classes: Seq<ClassView>,
    nodes: Seq<Node>,
    schedule: [[Option<usize>; 8]; 5],
) -> Result<Seq<Seq<Option<HopView>>>, Seq<char>> {
    collect_all(Seq::new(5, |d: int| day_entries(classes, nodes, schedule@[d]@, 8)))
}

/// Whether planning some day of the week would look for a hop after a
/// lunch break that has none.
pub open spec fn week_breaks(
    classes: Seq<ClassView>,
    nodes: Seq<Node>,
    schedule: [[Option<usize>; 8]; 5],
) -> bool {
    match week_entries(classes, nodes, schedule) {
        Ok(w) => exists|d: int| 0 <= d < 5 && day_breaks(#[trigger] w[d]),
        Err(_) => false,
    }
}

/// The legs planned for each day of the week (A, B, I, C, D), or the first
/// room that is not on the map.
pub open spec fn plan_spec(
    classes: Seq<ClassView>,
    nodes: Seq<Node>,
    schedule: [[Option<usize>; 8]; 5],
    entrance: EnterExit,
    exit: EnterExit,
    checked: bool,
) -> Result<Seq<Seq<LegView>>, Seq<char>> {
    match week_entries(classes, nodes, schedule) {
        Err(e) => Err(e),
        Ok(w) => Ok(
            Seq::new(
                5,
                |d: int| plan_day(d, w[d], entrance.spec_node(), exit.spec_node(), checked),
            ),
        ),
    }
}

/// The legs to walk on each day of the week, A, B, I, C, D in that order.
pub struct DailyPlan {
    pub days: Vec<Vec<Leg>>,
}

impl View for DailyPlan {
    type V = Seq<Seq<LegView>>;

    open spec fn view(&self) -> Seq<Seq<LegView>> {
        self.days@.map_values(|legs: Vec<Leg>| leg_views(legs@))
    }
}

/// The result of planning, as a mathematical value.
pub open spec fn plan_outcome(r: Result<DailyPlan, String>) -> Result<Seq<Seq<LegView>>, Seq<char>> {
    match r {
        Ok(p) => Ok(p@),
        Err(e) => Err(e@),
    }
}

/// The views of a week of entries.
pub open spec fn week_views(w: Seq<Vec<Option<Hop>>>) -> Seq<Seq<Option<HopView>>> {
    w.map_values(|e: Vec<Option<Hop>>| entry_views(e@))
}

fn week_entries_exec(
    schedule: &[[Option<usize>; 8]; 5],
    classes: &Vec<Class>,
    nodes: &[Node],
) -> (r: Result<Vec<Vec<Option<Hop>>>, String>)
    requires
        slots_valid(*schedule, classes@.len() as nat),
    ensures
        match r {
            Ok(w) => week_entries(class_views(classes@), nodes@, *schedule) == Ok::<
                Seq<Seq<Option<HopView>>>,
                Seq<char>,
            >(week_views(w@)),
            Err(e) => week_entries(class_views(classes@), nodes@, *schedule) == Err::<
                Seq<Seq<Option<HopView>>>,
                Seq<char>,
            >(e@),
        },
{
    let ghost cv = class_views(classes@);
    let ghost rs = Seq::new(5, |d: int| day_entries(cv, nodes@, schedule@[d]@, 8));
    let mut week: Vec<Vec<Option<Hop>>> = Vec::new();
    assert(rs.take(0) =~= seq![]);
    assert(week_views(week@) =~= seq![]);
    for d in 0..5
        invariant
            cv == class_views(classes@),
            rs == Seq::new(5, |d: int| day_entries(cv, nodes@, schedule@[d]@, 8)),
            slots_valid(*schedule, classes@.len() as nat),
            collect_all(rs.take(d as int)) == Ok::<Seq<Seq<Option<HopView>>>, Seq<char>>(
                week_views(week@),
            ),
    {
        proof {
            lemma_collect_step(rs, d as int);
            assert forall|k: int| 0 <= k < 8 implies (#[trigger] schedule[d as int]@[k] matches Some(
                i,
            ) ==> i < classes@.len()) by {
                assert(schedule[d as int]@[k] == schedule[d as int][k]);
            }
        }
        match day_entries_exec(&schedule[d], classes, nodes) {
            Ok(e) => {
                let ghost pre = week@;
                week.push(e);
                assert(week_views(week@) =~= week_views(pre).push(entry_views(e@)));
            },
            Err(err) => {
                assert(collect_all(rs.take(d + 1)) is Err);
                proof {
                    lemma_collect_err_sticks(rs, d + 1);
                }
                return Err(err);
            },
        }
    }
    assert(rs.take(5) =~= rs);
    Ok(week)
}

fn plan_week(
    week: &Vec<Vec<Option<Hop>>>,
    entrance: &EnterExit,
    exit: &EnterExit,
    checked: bool,
) -> (r: DailyPlan)
    requires
        week@.len() == 5,
        forall|d: int| 0 <= d < 5 ==> !day_breaks(#[trigger] week_views(week@)[d]),
    ensures
        r@ == Seq::new(
            5,
            |d: int|
                plan_day(
                    d,
                    week_views(week@)[d],
                    entrance.spec_node(),
                    exit.spec_node(),
                    checked,
                ),
        ),
{
    let ghost wv = week_views(week@);
    let mut days: Vec<Vec<Leg>> = Vec::new();
    let ent = entrance.node();
    let ext = exit.node();
    for d in 0..5
        invariant
            wv == week_views(week@),
            week@.len() == 5,
            ent == entrance.spec_node(),
            ext == exit.spec_node(),
            forall|d: int| 0 <= d < 5 ==> !day_breaks(#[trigger] week_views(week@)[d]),
            days@.len() == d,
            forall|j: int|
                0 <= j < d ==> leg_views((#[trigger] days@[j])@) == plan_day(
                    j,
                    wv[j],
                    ent,
                    ext,
                    checked,
                ),
    {
        assert(wv[d as int] == entry_views(week@[d as int]@));
        assert(!day_breaks(wv[d as int]));
        let legs = plan_day_exec(d, &week[d], ent, ext, checked);
        days.push(legs);
    }
    let plan = DailyPlan { days };
    assert(plan@ =~= Seq::new(5, |d: int| plan_day(d, wv[d], ent, ext, checked)));
    plan
}

fn week_breaks_exec(week: &Vec<Vec<Option<Hop>>>) -> (r: bool)
    requires
        week@.len() == 5,
    ensures
        r == exists|d: int| 0 <= d < 5 && day_breaks(#[trigger] week_views(week@)[d]),
{
    for d in 0..5
        invariant
            week@.len() == 5,
            forall|j: int| 0 <= j < d ==> !day_breaks(#[trigger] week_views(week@)[j]),
    {
        assert(week_views(week@)[d as int] == entry_views(week@[d as int]@));
        if day_breaks_exec(&week[d]) {
            return true;
        }
    }
    false
}

/// Plans the walks of each day of the week from the timetable `schedule`
/// (whose slots name classes of `classes`): rooms are looked up on the map
/// by their lower-case name, and each day runs from `entrance` to `exit`,
/// passing the lunch hall at the lunch break when `checked`.
pub fn node_find_func(
    schedule: &[[Option<usize>; 8]; 5],
    classes: &Vec<Class>,
    nodes: &[Node],
    entrance: &EnterExit,
    exit: &EnterExit,
    checked: bool,
) -> (r: Result<DailyPlan, String>)
    requires
        slots_valid(*schedule, classes@.len() as nat),
        !week_breaks(class_views(classes@), nodes@, *schedule),
    ensures
        plan_outcome(r) == plan_spec(
            class_views(classes@),
            nodes@,
            *schedule,
            *entrance,
            *exit,
            checked,
        ),
{
    let week = match week_entries_exec(schedule, classes, nodes) {
        Ok(w) => w,
        Err(e) => return Err(e),
    };
    proof {
        crate::class::lemma_collect_len(Seq::new(
            5,
            |d: int| day_entries(class_views(classes@), nodes@, schedule@[d]@, 8),
        ));
    }
    assert(week_views(week@).len() == 5);
    let plan = plan_week(&week, entrance, exit, checked);
    Ok(plan)
}

/// `node_find_func` where it can plan: `None` exactly when some day would
/// look for a hop after a lunch break that has none.
pub fn try_node_find_func(
    schedule: &[[Option<usize>; 8]; 5],
    classes: &Vec<Class>,
    nodes: &[Node],
    entrance: &EnterExit,
    exit: &EnterExit,
    checked: bool,
) -> (r: Option<Result<DailyPlan, String>>)
    requires
        slots_valid(*schedule, classes@.len() as nat),
    ensures
        r is None <==> week_breaks(class_views(classes@), nodes@, *schedule),
        r matches Some(p) ==> plan_outcome(p) == plan_spec(
            class_views(classes@),
            nodes@,
            *schedule,
            *entrance,
            *exit,
            checked,
        ),
{
    let week = match week_entries_exec(schedule, classes, nodes) {
        Ok(w) => w,
        Err(e) => return Some(Err(e)),
    };
    proof {
        crate::class::lemma_collect_len(Seq::new(
            5,
            |d: int| day_entries(class_views(classes@), nodes@, schedule@[d]@, 8),
        ));
    }
    if week_breaks_exec(&week) {
        return None;
    }
    Some(node_find_func(schedule, classes, nodes, entrance, exit, checked))
}

/// A walked leg: the nodes of its path, with the class left behind and the
/// class walked to.
pub type FullClass = (Vec<usize>, (Option<Class>, Option<Class>));

/// The mathematical value of a walked leg.
pub open spec fn full_view(f: FullClass) -> (Seq<usize>, (Option<ClassView>, Option<ClassView>)) {
    (f.0@, (class_opt(f.1.0), class_opt(f.1.1)))
}

/// The walked legs of each letter day.
pub struct DailyNode {
    pub anode: Option<Vec<FullClass>>,
    pub bnode: Option<Vec<FullClass>>,
    pub inode: Option<Vec<FullClass>>,
    pub cnode: Option<Vec<FullClass>>,
    pub dnode: Option<Vec<FullClass>>,
}

/// The legs of a day joined with the paths found for them, in order.
pub open spec fn walked(legs: Seq<LegView>, paths: Seq<Seq<usize>>) -> Seq<
    (Seq<usize>, (Option<ClassView>, Option<ClassView>)),
> {
    Seq::new(legs.len(), |k: int| (paths[k], (legs[k].before, legs[k].after)))
}

/// The walked legs of row `d` of the week (A, B, I, C, D).
pub open spec fn day_of(n: DailyNode, d: int) -> Option<Vec<FullClass>> {
    if d == 0 {
        n.anode
    } else if d == 1 {
        n.bnode
    } else if d == 2 {
        n.inode
    } else if d == 3 {
        n.cnode
    } else {
        n.dnode
    }
}

/// The views of the walked legs of one day.
pub open spec fn full_views(v: Seq<FullClass>) -> Seq<(Seq<usize>, (Option<ClassView>, Option<ClassView>))> {
    v.map_values(|f: FullClass| full_view(f))
}

fn copy_path(p: &Vec<usize>) -> (r: Vec<usize>)
    ensures
        r@ == p@,
{
    let mut r: Vec<usize> = Vec::new();
    for i in 0..p.len()
        invariant
            r@ == p@.take(i as int),
    {
        r.push(p[i]);
        assert(p@.take(i + 1) =~= p@.take(i as int).push(p@[i as int]));
    }
    assert(p@.take(p@.len() as int) =~= p@);
    r
}

fn walk_day(legs: &Vec<Leg>, paths: &Vec<Vec<usize>>) -> (r: Vec<FullClass>)
    requires
        paths@.len() == legs@.len(),
    ensures
        full_views(r@) == walked(leg_views(legs@), paths@.map_values(|p: Vec<usize>| p@)),
{
    let mut r: Vec<FullClass> = Vec::new();
    for k in 0..legs.len()
        invariant
            paths@.len() == legs@.len(),
            full_views(r@) == walked(leg_views(legs@), paths@.map_values(|p: Vec<usize>| p@)).take(
                k as int,
            ),
    {
        let leg = &legs[k];
        let ghost pre = r@;
        let item: FullClass = (copy_path(&paths[k]), (dup_opt(&leg.before), dup_opt(&leg.after)));
        r.push(item);
        assert(full_views(r@) =~= full_views(pre).push(full_view(item)));
        assert(leg_views(legs@)[k as int] == leg@);
        assert(paths@.map_values(|p: Vec<usize>| p@)[k as int] == paths@[k as int]@);
        assert(full_views(r@) =~= walked(leg_views(legs@), paths@.map_values(|p: Vec<usize>| p@)).take(
            k + 1,
        ));
    }
    assert(walked(leg_views(legs@), paths@.map_values(|p: Vec<usize>| p@)).take(legs@.len() as int)
        =~= walked(leg_views(legs@), paths@.map_values(|p: Vec<usize>| p@)));
    r
}

impl DailyNode {
    /// Joins a week's plan with the path found for each of its legs
    /// (`paths[d][k]` for leg `k` of day `d`).
    pub fn from_plan(plan: &DailyPlan, paths: &Vec<Vec<Vec<usize>>>) -> (r: DailyNode)
        requires
            plan.days@.len() == 5,
            paths@.len() == 5,
            forall|d: int| 0 <= d < 5 ==> (#[trigger] paths@[d])@.len() == plan.days@[d]@.len(),
        ensures
            r.anode matches Some(v) && full_views(v@) == walked(
                plan@[0],
                paths@[0]@.map_values(|p: Vec<usize>| p@),
            ),
            r.bnode matches Some(v) && full_views(v@) == walked(
                plan@[1],
                paths@[1]@.map_values(|p: Vec<usize>| p@),
            ),
            r.inode matches Some(v) && full_views(v@) == walked(
                plan@[2],
                paths@[2]@.map_values(|p: Vec<usize>| p@),
            ),
            r.cnode matches Some(v) && full_views(v@) == walked(
                plan@[3],
                paths@[3]@.map_values(|p: Vec<usize>| p@),
            ),
            r.dnode matches Some(v) && full_views(v@) == walked(
                plan@[4],
                paths@[4]@.map_values(|p: Vec<usize>| p@),
            ),
            forall|d: int|
                0 <= d < 5 ==> ((#[trigger] day_of(r, d)) matches Some(v) && full_views(v@) == walked(
                    plan@[d],
                    paths@[d]@.map_values(|p: Vec<usize>| p@),
                )),
    {
        let a = walk_day(&plan.days[0], &paths[0]);
        let b = walk_day(&plan.days[1], &paths[1]);
        let i = walk_day(&plan.days[2], &paths[2]);
        let c = walk_day(&plan.days[3], &paths[3]);
        let d = walk_day(&plan.days[4], &paths[4]);
        let r = DailyNode { anode: Some(a), bnode: Some(b), inode: Some(i), cnode: Some(c), dnode: Some(d) };
        assert forall|k: int| 0 <= k < 5 implies plan@[k] == leg_views(plan.days@[k]@) by {}
        r
    }
}

/// Every hop of a day joins two different rooms, and the lunch break is
/// marked exactly once in each day that has reached its fourth slot.
pub proof fn lemma_day_entries_shape(
    classes: Seq<ClassView>,
    nodes: Seq<Node>,
    day: Seq<Option<usize>>,
    n: int,
)
    requires
        0 <= n <= 8,
    ensures
        day_entries(classes, nodes, day, n) matches Ok(v) ==> {
            &&& forall|i: int| 0 <= i < v.len() ==> (#[trigger] v[i] matches Some(h) ==> h.from != h.to)
            &&& n <= 3 ==> forall|i: int| 0 <= i < v.len() ==> (#[trigger] v[i]) is Some
            &&& n > 3 ==> exists|p: int|
                0 <= p < v.len() && v[p] is None && forall|i: int|
                    0 <= i < v.len() && i != p ==> (#[trigger] v[i]) is Some
        },
    decreases n,
{
    if n > 0 {
        lemma_day_entries_shape(classes, nodes, day, n - 1);
        if let Ok(prev) = day_entries(classes, nodes, day, n - 1) {
            if let Ok(v) = day_entries(classes, nodes, day, n) {
                let v1 = if n - 1 == 3 {
                    prev.push(None)
                } else {
                    prev
                };
                assert(v == v1 || (v.len() == v1.len() + 1 && v.drop_last() == v1 && v.last() is Some
                    && v.last()->0.from != v.last()->0.to)) by {
                    if v != v1 {
                        assert(v.drop_last() =~= v1);
                    }
                }
                assert forall|i: int| 0 <= i < v1.len() implies (#[trigger] v1[i] matches Some(h)
                    ==> h.from != h.to) by {
                    if i < prev.len() {
                        assert(v1[i] == prev[i]);
                    }
                }
                assert forall|i: int| 0 <= i < v.len() implies (#[trigger] v[i] matches Some(h)
                    ==> h.from != h.to) by {
                    if i < v1.len() {
                        assert(v[i] == v1[i]);
                    }
                }
                if n <= 3 {
                    assert forall|i: int| 0 <= i < v.len() implies (#[trigger] v[i]) is Some by {
                        if i < v1.len() {
                            assert(v[i] == v1[i]);
                            assert(v1[i] == prev[i]);
                        }
                    }
                } else if n == 4 {
                    let p = prev.len() as int;
                    assert(v1[p] is None);
                    assert forall|i: int| 0 <= i < v.len() && i != p implies (#[trigger] v[i]) is Some by {
                        if i < p {
                            assert(v[i] == v1[i]);
                            assert(v1[i] == prev[i]);
                        }
                    }
                    assert(v[p] is None);
                } else {
                    let p = choose|p: int|
                        0 <= p < prev.len() && prev[p] is None && forall|i: int|
                            0 <= i < prev.len() && i != p ==> (#[trigger] prev[i]) is Some;
                    assert(v[p] == prev[p]);
                    assert forall|i: int| 0 <= i < v.len() && i != p implies (#[trigger] v[i]) is Some by {
                        if i < prev.len() {
                            assert(v[i] == prev[i]);
                        }
                    }
                }
            }
        }
    }
}

/// A planned day that has more than `d` entries begins at the entrance and
/// ends at the exit.
pub proof fn lemma_day_runs_door_to_door(
    d: int,
    e: Seq<Option<HopView>>,
    entrance: usize,
    exit: usize,
    checked: bool,
)
    requires
        e.len() > d,
    ensures
        plan_day(d, e, entrance, exit, checked).len() >= 2,
        plan_day(d, e, entrance, exit, checked)[0].from == entrance,
        plan_day(d, e, entrance, exit, checked).last().to == exit,
{
    let mid = Seq::new(e.len(), |it: int| middle_legs(e, it, checked)).flatten_alt();
    let p = plan_day(d, e, entrance, exit, checked);
    assert(p == plan_head(d, e, entrance) + mid + plan_tail(d, e, exit));
    assert(p[0] == plan_head(d, e, entrance)[0]);
    assert(p.last() == plan_tail(d, e, exit)[0]);
}

/// Whether the room of a slot can be looked up: when its name or its
/// lower-case name is not empty, the lower-case name is on the map.
pub open spec fn slot_known(classes: Seq<ClassView>, nodes: Seq<Node>, slot: Option<usize>) -> bool {
    let room = slot_room(classes, slot);
    (room.len() > 0 || lowercase(room).len() > 0) ==> name_lookup(nodes, lowercase(room)) is Some
}

proof fn lemma_next_room_slot(classes: Seq<ClassView>, day: Seq<Option<usize>>, k: int)
    ensures
        next_room_slot(classes, day, k) matches Some(j) ==> k <= j < 8 && slot_room(
            classes,
            day[j],
        ).len() > 0,
    decreases 8 - k,
{
    if k < 8 && slot_room(classes, day[k]).len() == 0 {
        lemma_next_room_slot(classes, day, k + 1);
    }
}

proof fn lemma_known_day(
    classes: Seq<ClassView>,
    nodes: Seq<Node>,
    day: Seq<Option<usize>>,
    n: int,
)
    requires
        0 <= n <= 8,
        day.len() == 8,
        forall|k: int| 0 <= k < 8 ==> slot_known(classes, nodes, #[trigger] day[k]),
    ensures
        day_entries(classes, nodes, day, n) is Ok,
    decreases n,
{
    if n > 0 {
        lemma_known_day(classes, nodes, day, n - 1);
        lemma_next_room_slot(classes, day, n);
        assert(slot_known(classes, nodes, day[n - 1]));
        if let Some(k) = next_room_slot(classes, day, n) {
            assert(slot_known(classes, nodes, day[k]));
        }
    }
}

/// Planning a week reports no unknown room when every room of the timetable
/// is on the map under its lower-case name.
pub proof fn lemma_known_rooms_plan(
    classes: Seq<ClassView>,
    nodes: Seq<Node>,
    schedule: [[Option<usize>; 8]; 5],
    entrance: EnterExit,
    exit: EnterExit,
    checked: bool,
)
    requires
        forall|d: int, k: int|
            0 <= d < 5 && 0 <= k < 8 ==> slot_known(classes, nodes, #[trigger] schedule[d][k]),
    ensures
        plan_spec(classes, nodes, schedule, entrance, exit, checked) is Ok,
{
    let rs = Seq::new(5, |d: int| day_entries(classes, nodes, schedule@[d]@, 8));
    assert forall|d: int| 0 <= d < 5 implies (#[trigger] rs[d]) is Ok by {
        assert forall|k: int| 0 <= k < 8 implies slot_known(classes, nodes, #[trigger] schedule@[d]@[k]) by {
            assert(schedule@[d]@[k] == schedule[d][k]);
        }
        lemma_known_day(classes, nodes, schedule@[d]@, 8);
    }
    crate::class::lemma_collect_all_ok(rs);
}

/// A day cannot be planned exactly when its last entry is the lunch break
/// and a hop comes before it.
pub proof fn lemma_when_day_breaks(classes: Seq<ClassView>, nodes: Seq<Node>, day: Seq<Option<usize>>)
    ensures
        day_entries(classes, nodes, day, 8) matches Ok(v) ==> (day_breaks(v) <==> (v.len() >= 2
            && v.last() is None)),
{
    lemma_day_entries_shape(classes, nodes, day, 8);
    if let Ok(v) = day_entries(classes, nodes, day, 8) {
        let p = choose|p: int|
            0 <= p < v.len() && v[p] is None && forall|i: int|
                0 <= i < v.len() && i != p ==> (#[trigger] v[i]) is Some;
        if day_breaks(v) {
            let it = choose|it: int| 0 <= it < v.len() && breaks_at(v, it);
            assert(it == p);
            if it == 0 {
                assert(v[prev_index(it)] is None);
            }
            if it + 1 < v.len() {
                assert(v[it + 1] is Some);
            }
        }
        if v.len() >= 2 && v.last() is None {
            let it = v.len() - 1;
            assert(v[it] is None);
            assert(it == p);
            assert(v[it - 1] is Some);
            assert(breaks_at(v, it));
        }
    }
}

/// The fields of a `DailyNode` are the letter days A, B, I, C, D, in the
/// order of the week's rows.
pub proof fn lemma_day_of_fields(n: DailyNode)
    ensures
        day_of(n, 0) == n.anode,
        day_of(n, 1) == n.bnode,
        day_of(n, 2) == n.inode,
        day_of(n, 3) == n.cnode,
        day_of(n, 4) == n.dnode,
{
}

/// Each row of a week's plan follows the same row of the timetable alone:
/// two timetables that agree on a letter day get the same walks that day.
pub proof fn lemma_plan_rows_follow_timetable(
    classes: Seq<ClassView>,
    nodes: Seq<Node>,
    s1: [[Option<usize>; 8]; 5],
    s2: [[Option<usize>; 8]; 5],
    entrance: EnterExit,
    exit: EnterExit,
    checked: bool,
    d: int,
)
    requires
        0 <= d < 5,
        s1@[d] == s2@[d],
        plan_spec(classes, nodes, s1, entrance, exit, checked) is Ok,
        plan_spec(classes, nodes, s2, entrance, exit, checked) is Ok,
    ensures
        plan_spec(classes, nodes, s1, entrance, exit, checked)->Ok_0[d] == plan_spec(
            classes,
            nodes,
            s2,
            entrance,
            exit,
            checked,
        )->Ok_0[d],
{
    let r1 = Seq::new(5, |k: int| day_entries(classes, nodes, s1@[k]@, 8));
    let r2 = Seq::new(5, |k: int| day_entries(classes, nodes, s2@[k]@, 8));
    crate::class::lemma_collect_len(r1);
    crate::class::lemma_collect_len(r2);
    assert(r1[d] == r2[d]);
}

} // verus!
