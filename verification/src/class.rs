//! Classes of a schedule, and the parsers for their day and mod fields.
use vstd::prelude::*;
use crate::pattern::{compile, is_match, regex_compiles, regex_is_match};
use crate::text::{
    chars_of, digit_value, digit_value_exec, push_all, split_char, split_char_exec, split_once,
    split_once_chars, string_of, trim, trim_chars, views,
};

verus! {

/// A letter day of the rotating schedule.
#[derive(Debug, PartialEq, Eq, Hash, Copy, Clone, Structural)]
pub enum Day {
    A,
    B,
    C,
    D,
    I,
}

/// The term a class runs in.
#[derive(Debug, PartialEq, Eq, Copy, Clone, Structural)]
pub enum Semester {
    S1,
    S2,
    Year,
}

/// One class of a schedule.
#[derive(Debug, Clone)]
pub struct Class {
    pub days: Vec<Day>,
    pub mods: Vec<u8>,
    pub semester: Semester,
    pub short_name: String,
    pub long_name: String,
    pub teacher: String,
    pub room: String,
    pub start: String,
    pub end: String,
}

/// The mathematical value of a [`Class`].
pub struct ClassView {
    pub days: Seq<Day>,
    pub mods: Seq<u8>,
    pub semester: Semester,
    pub short_name: Seq<char>,
    pub long_name: Seq<char>,
    pub teacher: Seq<char>,
    pub room: Seq<char>,
    pub start: Seq<char>,
    pub end: Seq<char>,
}

impl View for Class {
    type V = ClassView;

    open spec fn view(&self) -> ClassView {
        ClassView {
            days: self.days@,
            mods: self.mods@,
            semester: self.semester,
            short_name: self.short_name@,
            long_name: self.long_name@,
            teacher: self.teacher@,
            room: self.room@,
            start: self.start@,
            end: self.end@,
        }
    }
}

fn copy_days(v: &Vec<Day>) -> (r: Vec<Day>)
    ensures
        r@ == v@,
{
    let mut r: Vec<Day> = Vec::new();
    for i in 0..v.len()
        invariant
            r@ == v@.take(i as int),
    {
        r.push(v[i]);
        assert(v@.take(i + 1) =~= v@.take(i as int).push(v@[i as int]));
    }
    assert(v@.take(v@.len() as int) =~= v@);
    r
}

fn copy_mods(v: &Vec<u8>) -> (r: Vec<u8>)
    ensures
        r@ == v@,
{
    let mut r: Vec<u8> = Vec::new();
    for i in 0..v.len()
        invariant
            r@ == v@.take(i as int),
    {
        r.push(v[i]);
        assert(v@.take(i + 1) =~= v@.take(i as int).push(v@[i as int]));
    }
    assert(v@.take(v@.len() as int) =~= v@);
    r
}

impl Class {
    /// A copy of this class.
    pub fn duplicate(&self) -> (r: Class)
        ensures
            r@ == self@,
    {
        Class {
            days: copy_days(&self.days),
            mods: copy_mods(&self.mods),
            semester: self.semester,
            short_name: self.short_name.clone(),
            long_name: self.long_name.clone(),
            teacher: self.teacher.clone(),
            room: self.room.clone(),
            start: self.start.clone(),
            end: self.end.clone(),
        }
    }

    /// Whether the class meets on `day`.
    pub fn meets_on(&self, day: Day) -> (r: bool)
        ensures
            r == self@.days.contains(day),
    {
        for i in 0..self.days.len()
            invariant
                forall|j: int| 0 <= j < i ==> self@.days[j] != day,
        {
            if self.days[i] == day {
                return true;
            }
        }
        false
    }
}

/// The result of a step that fails with a message, as a mathematical value.
pub open spec fn outcome<T: View>(r: Result<T, String>) -> Result<T::V, Seq<char>> {
    match r {
        Ok(v) => Ok(v@),
        Err(e) => Err(e@),
    }
}

/// The outcomes of a sequence of steps, collected as `Iterator::collect`
/// into a `Result` does: all values, or the first error.
pub open spec fn collect_all<T>(rs: Seq<Result<T, Seq<char>>>) -> Result<Seq<T>, Seq<char>>
    decreases rs.len(),
{
    if rs.len() == 0 {
        Ok(seq![])
    } else {
        match collect_all(rs.drop_last()) {
            Err(e) => Err(e),
            Ok(v) => match rs.last() {
                Err(e) => Err(e),
                Ok(x) => Ok(v.push(x)),
            },
        }
    }
}

/// Once a prefix of the steps has failed, the whole collection fails with that error.
pub proof fn lemma_collect_err_sticks<T>(rs: Seq<Result<T, Seq<char>>>, i: int)
    requires
        0 <= i <= rs.len(),
        collect_all(rs.take(i)) is Err,
    ensures
        collect_all(rs) == collect_all(rs.take(i)),
    decreases rs.len() - i,
{
    if i < rs.len() {
        assert(rs.take(i + 1).drop_last() =~= rs.take(i));
        lemma_collect_err_sticks(rs, i + 1);
    } else {
        assert(rs.take(i) =~= rs);
    }
}

/// Extending a successful prefix by one step.
pub proof fn lemma_collect_step<T>(rs: Seq<Result<T, Seq<char>>>, i: int)
    requires
        0 <= i < rs.len(),
    ensures
        collect_all(rs.take(i + 1)) == match collect_all(rs.take(i)) {
            Err(e) => Err(e),
            Ok(v) => match rs[i] {
                Err(e) => Err(e),
                Ok(x) => Ok(v.push(x)),
            },
        },
{
    assert(rs.take(i + 1).drop_last() =~= rs.take(i));
}

/// When every step succeeds, the collection succeeds.
pub proof fn lemma_collect_all_ok<T>(rs: Seq<Result<T, Seq<char>>>)
    requires
        forall|i: int| 0 <= i < rs.len() ==> (#[trigger] rs[i]) is Ok,
    ensures
        collect_all(rs) is Ok,
    decreases rs.len(),
{
    if rs.len() > 0 {
        let rest = rs.drop_last();
        assert forall|i: int| 0 <= i < rest.len() implies (#[trigger] rest[i]) is Ok by {
            assert(rest[i] == rs[i]);
        }
        lemma_collect_all_ok(rest);
        assert(rs.last() is Ok);
    }
}

/// Collecting two successful runs of steps one after the other gives both
/// values, in order.
pub proof fn lemma_collect_concat<T>(r1: Seq<Result<T, Seq<char>>>, r2: Seq<Result<T, Seq<char>>>)
    requires
        collect_all(r1) is Ok,
        collect_all(r2) is Ok,
    ensures
        collect_all(r1 + r2) == Ok::<Seq<T>, Seq<char>>(
            collect_all(r1)->Ok_0 + collect_all(r2)->Ok_0,
        ),
    decreases r2.len(),
{
    if r2.len() == 0 {
        assert(r1 + r2 =~= r1);
        assert(collect_all(r1)->Ok_0 + collect_all(r2)->Ok_0 =~= collect_all(r1)->Ok_0);
    } else {
        lemma_collect_concat(r1, r2.drop_last());
        assert((r1 + r2).drop_last() =~= r1 + r2.drop_last());
        assert((r1 + r2).last() == r2.last());
        let x = collect_all(r1)->Ok_0;
        let y = collect_all(r2.drop_last())->Ok_0;
        let z = r2.last()->Ok_0;
        assert((x + y).push(z) =~= x + y.push(z));
    }
}

pub proof fn lemma_collect_len<T>(rs: Seq<Result<T, Seq<char>>>)
    ensures
        collect_all(rs) matches Ok(v) ==> v.len() == rs.len() && forall|i: int|
            0 <= i < rs.len() ==> rs[i] == Ok::<T, Seq<char>>(#[trigger] v[i]),
    decreases rs.len(),
{
    if rs.len() > 0 {
        lemma_collect_len(rs.drop_last());
        if let Ok(v) = collect_all(rs) {
            assert forall|i: int| 0 <= i < rs.len() implies rs[i] == Ok::<T, Seq<char>>(
                #[trigger] v[i],
            ) by {
                if i < rs.len() - 1 {
                    assert(rs[i] == rs.drop_last()[i]);
                }
            }
        }
    }
}

pub const DAY_PATTERN: &'static str = "^[ ABCDI,-]*$";

pub const MODS_PATTERN: &'static str = "^[a-zA-Z0-9-]*$";

/// The error given when a built-in pattern is refused by the regex engine.
pub open spec fn bad_pattern(pattern: Seq<char>) -> Seq<char> {
    "Invalid pattern: "@ + pattern
}

pub fn bad_pattern_msg(pattern: &str) -> (r: String)
    ensures
        r@ == bad_pattern(pattern@),
{
    let mut v = chars_of("Invalid pattern: ");
    let p = chars_of(pattern);
    push_all(&mut v, &p);
    string_of(&v)
}

/// A message made of a fixed text followed by a piece of the input.
pub fn message(head: &str, tail: &[char]) -> (r: String)
    ensures
        r@ == head@ + tail@,
{
    let mut v = chars_of(head);
    push_all(&mut v, tail);
    string_of(&v)
}

/// The day a one-letter piece names.
pub open spec fn letter_day(s: Seq<char>) -> Option<Day> {
    if s.len() != 1 {
        None
    } else if s[0] == 'A' {
        Some(Day::A)
    } else if s[0] == 'B' {
        Some(Day::B)
    } else if s[0] == 'C' {
        Some(Day::C)
    } else if s[0] == 'D' {
        Some(Day::D)
    } else if s[0] == 'I' {
        Some(Day::I)
    } else {
        None
    }
}

/// The days whose letter lies between `lo` and `hi` (inclusive), in letter order.
pub open spec fn days_between(lo: char, hi: char) -> Seq<Day> {
    (if lo <= 'A' && 'A' <= hi { seq![Day::A] } else { seq![] }) + (if lo <= 'B' && 'B' <= hi {
        seq![Day::B]
    } else {
        seq![]
    }) + (if lo <= 'C' && 'C' <= hi { seq![Day::C] } else { seq![] }) + (if lo <= 'D' && 'D'
        <= hi {
        seq![Day::D]
    } else {
        seq![]
    }) + (if lo <= 'I' && 'I' <= hi { seq![Day::I] } else { seq![] })
}

/// The days named by one comma-separated piece of a day field (already trimmed).
pub open spec fn piece_days(day: Seq<char>) -> Result<Seq<Day>, Seq<char>> {
    match letter_day(day) {
        Some(d) => Ok(seq![d]),
        None => match split_once(day, '-') {
            Some((start, end)) => if start.len() == 0 {
                Err("Invalid start day: "@ + day)
            } else {
                Ok(days_between(start[0], if end.len() > 0 { end[0] } else { start[0] }))
            },
            None => Err("Unknown day pattern: "@ + day),
        },
    }
}

/// The days of a day field that passed the day pattern.
pub open spec fn day_list(day_str: Seq<char>) -> Result<Seq<Day>, Seq<char>> {
    match collect_all(split_char(day_str, ',').map_values(|p: Seq<char>| piece_days(trim(p)))) {
        Ok(parts) => Ok(parts.flatten_alt()),
        Err(e) => Err(e),
    }
}

/// `parse_day` once the day pattern has been tried: `is_valid` is its answer.
pub open spec fn day_field(day_str: Seq<char>, is_valid: bool) -> Result<Seq<Day>, Seq<char>> {
    if !is_valid {
        Err("Invalid day value: "@ + day_str)
    } else {
        day_list(day_str)
    }
}

/// What `parse_day` gives for `day_str`.
pub open spec fn parse_day_spec(day_str: Seq<char>) -> Result<Seq<Day>, Seq<char>> {
    if !regex_compiles(DAY_PATTERN@) {
        Err(bad_pattern(DAY_PATTERN@))
    } else {
        day_field(day_str, regex_is_match(DAY_PATTERN@, day_str))
    }
}

fn letter_day_exec(s: &[char]) -> (r: Option<Day>)
    ensures
        r == letter_day(s@),
{
    if s.len() != 1 {
        None
    } else if s[0] == 'A' {
        Some(Day::A)
    } else if s[0] == 'B' {
        Some(Day::B)
    } else if s[0] == 'C' {
        Some(Day::C)
    } else if s[0] == 'D' {
        Some(Day::D)
    } else if s[0] == 'I' {
        Some(Day::I)
    } else {
        None
    }
}

fn days_between_exec(lo: char, hi: char) -> (r: Vec<Day>)
    ensures
        r@ == days_between(lo, hi),
{
    let mut r: Vec<Day> = Vec::new();
    if lo <= 'A' && 'A' <= hi {
        r.push(Day::A);
    }
    if lo <= 'B' && 'B' <= hi {
        r.push(Day::B);
    }
    if lo <= 'C' && 'C' <= hi {
        r.push(Day::C);
    }
    if lo <= 'D' && 'D' <= hi {
        r.push(Day::D);
    }
    if lo <= 'I' && 'I' <= hi {
        r.push(Day::I);
    }
    assert(r@ =~= days_between(lo, hi));
    r
}

fn piece_days_exec(day: &[char]) -> (r: Result<Vec<Day>, String>)
    ensures
        outcome(r) == piece_days(day@),
{
    match letter_day_exec(day) {
        Some(d) => {
            let mut v: Vec<Day> = Vec::new();
            v.push(d);
            assert(v@ =~= seq![d]);
            Ok(v)
        },
        None => match split_once_chars(day, '-') {
            Some((start, end)) => {
                if start.len() == 0 {
                    Err(message("Invalid start day: ", day))
                } else {
                    let hi = if end.len() > 0 {
                        end[0]
                    } else {
                        start[0]
                    };
                    Ok(days_between_exec(start[0], hi))
                }
            },
            None => Err(message("Unknown day pattern: ", day)),
        },
    }
}

/// The days of a day field that has passed the day pattern check; the
/// field is split at commas and each trimmed piece is a letter or a range.
pub fn parse_day_checked(day_str: &[char], is_valid: bool) -> (r: Result<Vec<Day>, String>)
    ensures
        outcome(r) == day_field(day_str@, is_valid),
{
    if !is_valid {
        return Err(message("Invalid day value: ", day_str));
    }
    let pieces = split_char_exec(day_str, ',');
    let ghost rs = split_char(day_str@, ',').map_values(|p: Seq<char>| piece_days(trim(p)));
    let mut days: Vec<Day> = Vec::new();
    let ghost mut parts: Seq<Seq<Day>> = seq![];
    assert(rs.take(0) =~= seq![]);
    for i in 0..pieces.len()
        invariant
            is_valid,
            views(pieces@) == split_char(day_str@, ','),
            rs == split_char(day_str@, ',').map_values(|p: Seq<char>| piece_days(trim(p))),
            rs.len() == pieces@.len(),
            collect_all(rs.take(i as int)) == Ok::<Seq<Seq<Day>>, Seq<char>>(parts),
            days@ == parts.flatten_alt(),
    {
        let piece = trim_chars(&pieces[i]);
        assert(pieces@[i as int]@ == views(pieces@)[i as int]);
        assert(rs[i as int] == piece_days(piece@));
        proof {
            lemma_collect_step(rs, i as int);
        }
        match piece_days_exec(&piece) {
            Ok(d) => {
                let ghost got = d@;
                let mut d = d;
                days.append(&mut d);
                proof {
                    assert(parts.push(got).drop_last() =~= parts);
                    parts = parts.push(got);
                }
            },
            Err(e) => {
                assert(collect_all(rs.take(i + 1)) == Err::<Seq<Seq<Day>>, Seq<char>>(e@));
                proof {
                    lemma_collect_err_sticks(rs, i + 1);
                }
                assert(collect_all(rs) == Err::<Seq<Seq<Day>>, Seq<char>>(e@));
                return Err(e);
            },
        }
    }
    assert(rs.take(rs.len() as int) =~= rs);
    Ok(days)
}

/// Parses a day field such as `A,C-D` into the days it names.
pub fn parse_day(day_str: &str) -> (r: Result<Vec<Day>, String>)
    ensures
        outcome(r) == parse_day_spec(day_str@),
{
    let re = match compile(DAY_PATTERN) {
        Some(re) => re,
        None => return Err(bad_pattern_msg(DAY_PATTERN)),
    };
    let valid = is_match(&re, day_str);
    let chars = chars_of(day_str);
    parse_day_checked(&chars, valid)
}

/// The mods `lo..=hi`.
pub open spec fn mod_range(lo: nat, hi: nat) -> Seq<u8> {
    Seq::new(if lo <= hi { (hi - lo + 1) as nat } else { 0 }, |i: int| (lo + i) as u8)
}

/// The mods named by one dash-separated part of a mod field: the range from
/// its first to its last character when both are decimal digits.
pub open spec fn part_mods(part: Seq<char>) -> Seq<u8> {
    if part.len() > 0 && digit_value(part[0]) is Some && digit_value(part.last()) is Some {
        mod_range(digit_value(part[0])->0, digit_value(part.last())->0)
    } else {
        seq![]
    }
}

/// `parse_mods` once the mod pattern has been tried: `is_valid` is its answer.
pub open spec fn mod_field(mod_str: Seq<char>, is_valid: bool) -> Result<Seq<u8>, Seq<char>> {
    if !is_valid {
        Err("Invalid mod value: "@ + mod_str)
    } else {
        Ok(split_char(mod_str, '-').map_values(|p: Seq<char>| part_mods(p)).flatten_alt())
    }
}

/// What `parse_mods` gives for `mod_str`.
pub open spec fn parse_mods_spec(mod_str: Seq<char>) -> Result<Seq<u8>, Seq<char>> {
    if !regex_compiles(MODS_PATTERN@) {
        Err(bad_pattern(MODS_PATTERN@))
    } else {
        mod_field(mod_str, regex_is_match(MODS_PATTERN@, mod_str))
    }
}

fn part_mods_exec(part: &[char]) -> (r: Vec<u8>)
    ensures
        r@ == part_mods(part@),
{
    let mut r: Vec<u8> = Vec::new();
    if part.len() == 0 {
        return r;
    }
    let first = digit_value_exec(part[0]);
    let last = digit_value_exec(part[part.len() - 1]);
    match (first, last) {
        (Some(lo), Some(hi)) => {
            if lo > hi {
                assert(r@ =~= mod_range(lo as nat, hi as nat));
                return r;
            }
            let mut m = lo;
            while m <= hi
                invariant
                    lo <= m <= hi + 1,
                    hi < 10,
                    r@.len() == m - lo,
                    forall|k: int| 0 <= k < r@.len() ==> r@[k] == (lo + k) as u8,
                decreases hi + 1 - m,
            {
                r.push(m as u8);
                m = m + 1;
            }
            assert(r@ =~= mod_range(lo as nat, hi as nat));
            r
        },
        _ => r,
    }
}

/// The mods of a mod field that has passed the mod pattern check; the field
/// is split at dashes and each part names a range of mods.
pub fn parse_mods_checked(mod_str: &[char], is_valid: bool) -> (r: Result<Vec<u8>, String>)
    ensures
        outcome(r) == mod_field(mod_str@, is_valid),
{
    if !is_valid {
        return Err(message("Invalid mod value: ", mod_str));
    }
    let parts = split_char_exec(mod_str, '-');
    let ghost ps = split_char(mod_str@, '-').map_values(|p: Seq<char>| part_mods(p));
    let mut mods: Vec<u8> = Vec::new();
    assert(ps.take(0).flatten_alt() =~= seq![]);
    for i in 0..parts.len()
        invariant
            views(parts@) == split_char(mod_str@, '-'),
            ps == split_char(mod_str@, '-').map_values(|p: Seq<char>| part_mods(p)),
            ps.len() == parts@.len(),
            mods@ == ps.take(i as int).flatten_alt(),
    {
        assert(parts@[i as int]@ == views(parts@)[i as int]);
        let mut m = part_mods_exec(&parts[i]);
        assert(ps.take(i + 1).drop_last() =~= ps.take(i as int));
        mods.append(&mut m);
    }
    assert(ps.take(ps.len() as int) =~= ps);
    Ok(mods)
}

/// Parses a mod field such as `3-5` into the mods it names.
pub fn parse_mods(mod_str: &str) -> (r: Result<Vec<u8>, String>)
    ensures
        outcome(r) == parse_mods_spec(mod_str@),
{
    let re = match compile(MODS_PATTERN) {
        Some(re) => re,
        None => return Err(bad_pattern_msg(MODS_PATTERN)),
    };
    let valid = is_match(&re, mod_str);
    let chars = chars_of(mod_str);
    parse_mods_checked(&chars, valid)
}

proof fn lemma_flatten_digits(parts: Seq<Seq<u8>>)
    requires
        forall|i: int, k: int|
            0 <= i < parts.len() && 0 <= k < parts[i].len() ==> #[trigger] parts[i][k] <= 9,
    ensures
        forall|k: int| 0 <= k < parts.flatten_alt().len() ==> #[trigger] parts.flatten_alt()[k] <= 9,
    decreases parts.len(),
{
    if parts.len() > 0 {
        let rest = parts.drop_last();
        assert forall|i: int, k: int|
            0 <= i < rest.len() && 0 <= k < rest[i].len() implies #[trigger] rest[i][k] <= 9 by {
            assert(rest[i] == parts[i]);
        }
        lemma_flatten_digits(rest);
        let f = parts.flatten_alt();
        assert forall|k: int| 0 <= k < f.len() implies #[trigger] f[k] <= 9 by {
            if k >= rest.flatten_alt().len() {
                assert(f[k] == parts.last()[k - rest.flatten_alt().len()]);
            } else {
                assert(f[k] == rest.flatten_alt()[k]);
            }
        }
    }
}

/// Every mod that a mod field names is a single decimal digit's value.
pub proof fn lemma_mods_are_digits(mod_str: Seq<char>, is_valid: bool)
    ensures
        mod_field(mod_str, is_valid) matches Ok(mods) ==> forall|k: int|
            0 <= k < mods.len() ==> #[trigger] mods[k] <= 9,
{
    let parts = split_char(mod_str, '-').map_values(|p: Seq<char>| part_mods(p));
    assert forall|i: int, k: int|
        0 <= i < parts.len() && 0 <= k < parts[i].len() implies #[trigger] parts[i][k] <= 9 by {
        let p = split_char(mod_str, '-')[i];
        assert(parts[i] == part_mods(p));
        if p.len() > 0 && digit_value(p[0]) is Some && digit_value(p.last()) is Some {
            let hi = digit_value(p.last())->0;
            assert(hi <= 9);
            assert(parts[i][k] == (digit_value(p[0])->0 + k) as u8);
        }
    }
    lemma_flatten_digits(parts);
}

/// Parsing `a,b` (once the day pattern accepts it) gives the days of `a`
/// followed by the days of `b`.
pub proof fn lemma_day_list_join(a: Seq<char>, b: Seq<char>)
    requires
        day_list(a) is Ok,
        day_list(b) is Ok,
    ensures
        day_field(a + seq![','] + b, true) == Ok::<Seq<Day>, Seq<char>>(
            day_list(a)->Ok_0 + day_list(b)->Ok_0,
        ),
{
    let f = |p: Seq<char>| piece_days(trim(p));
    crate::text::lemma_split_char_join(a, b, ',');
    let pa = split_char(a, ',');
    let pb = split_char(b, ',');
    assert((pa + pb).map_values(f) =~= pa.map_values(f) + pb.map_values(f));
    lemma_collect_concat(pa.map_values(f), pb.map_values(f));
    vstd::seq_lib::lemma_flatten_alt_concat(
        collect_all(pa.map_values(f))->Ok_0,
        collect_all(pb.map_values(f))->Ok_0,
    );
}

/// The letter that names a day.
pub open spec fn day_letter(d: Day) -> char {
    match d {
        Day::A => 'A',
        Day::B => 'B',
        Day::C => 'C',
        Day::D => 'D',
        Day::I => 'I',
    }
}

/// A day range names exactly the days whose letter lies between its ends,
/// both ends included, each once, in letter order.
pub proof fn lemma_days_between_range(lo: char, hi: char)
    ensures
        forall|d: Day| #[trigger] days_between(lo, hi).contains(d) <==> lo <= day_letter(d) <= hi,
        days_between(lo, hi).no_duplicates(),
        forall|i: int, j: int|
            0 <= i < j < days_between(lo, hi).len() ==> day_letter(days_between(lo, hi)[i])
                < day_letter(days_between(lo, hi)[j]),
{
    let r = days_between(lo, hi);
    let a = if lo <= 'A' && 'A' <= hi { seq![Day::A] } else { seq![] };
    let b = if lo <= 'B' && 'B' <= hi { seq![Day::B] } else { seq![] };
    let c = if lo <= 'C' && 'C' <= hi { seq![Day::C] } else { seq![] };
    let d = if lo <= 'D' && 'D' <= hi { seq![Day::D] } else { seq![] };
    let e = if lo <= 'I' && 'I' <= hi { seq![Day::I] } else { seq![] };
    assert(r == a + b + c + d + e);
    let letters = r.map_values(|x: Day| day_letter(x));
    assert forall|i: int, j: int| 0 <= i < j < r.len() implies day_letter(r[i]) < day_letter(r[j]) by {
        let ls = a.map_values(|x: Day| day_letter(x)) + b.map_values(|x: Day| day_letter(x))
            + c.map_values(|x: Day| day_letter(x)) + d.map_values(|x: Day| day_letter(x))
            + e.map_values(|x: Day| day_letter(x));
        assert(letters =~= ls);
        assert(letters[i] == day_letter(r[i]));
        assert(letters[j] == day_letter(r[j]));
    }
    assert forall|x: Day| #[trigger] r.contains(x) <==> lo <= day_letter(x) <= hi by {
        if lo <= day_letter(x) <= hi {
            match x {
                Day::A => { assert(r[0] == Day::A); },
                Day::B => { assert(r[a.len() as int] == Day::B); },
                Day::C => { assert(r[(a.len() + b.len()) as int] == Day::C); },
                Day::D => { assert(r[(a.len() + b.len() + c.len()) as int] == Day::D); },
                Day::I => { assert(r[(a.len() + b.len() + c.len() + d.len()) as int] == Day::I); },
            }
        }
        if r.contains(x) {
            let k = choose|k: int| 0 <= k < r.len() && r[k] == x;
            assert(letters[k] == day_letter(x));
        }
    }
    assert forall|i: int, j: int| 0 <= i < r.len() && 0 <= j < r.len() && i != j implies r[i] != r[j] by {
        if i < j {
            assert(day_letter(r[i]) < day_letter(r[j]));
        } else {
            assert(day_letter(r[j]) < day_letter(r[i]));
        }
    }
}

/// A day field `X-Y` that names two days names exactly the days whose
/// letter lies between them, both included.
pub proof fn lemma_day_range_field(x: Day, y: Day)
    ensures
        day_field(seq![day_letter(x), '-', day_letter(y)], true) matches Ok(v) && forall|d: Day|
            #[trigger] v.contains(d) <==> day_letter(x) <= day_letter(d) <= day_letter(y),
{
    let lx = day_letter(x);
    let ly = day_letter(y);
    let s = seq![lx, '-', ly];
    assert(s.drop_last() =~= seq![lx, '-']);
    assert(s.drop_last().drop_last() =~= seq![lx]);
    assert(s.drop_last().drop_last().drop_last() =~= Seq::<char>::empty());
    assert(lx != ',' && ly != ',' && lx != '-');
    assert(crate::text::split_scan(seq![lx], ',') == (Seq::<Seq<char>>::empty(), seq![lx])) by {
        assert(seq![lx].drop_last() =~= Seq::<char>::empty());
        assert(crate::text::split_scan(Seq::<char>::empty(), ',') == (
            Seq::<Seq<char>>::empty(),
            Seq::<char>::empty(),
        ));
        assert(seq![lx].last() == lx);
        assert(Seq::<char>::empty().push(lx) =~= seq![lx]);
    }
    assert(crate::text::split_scan(seq![lx, '-'], ',') == (Seq::<Seq<char>>::empty(), seq![lx, '-']))
        by {
        assert(seq![lx].push('-') =~= seq![lx, '-']);
    }
    assert(crate::text::split_scan(s, ',') == (Seq::<Seq<char>>::empty(), s)) by {
        assert(seq![lx, '-'].push(ly) =~= s);
    }
    assert(split_char(s, ',') =~= seq![s]);
    assert(trim(s) == s) by {
        assert(!crate::text::is_space(s[0]));
        assert(crate::text::leading_spaces(s) == 0);
        assert(s.skip(0) =~= s);
        assert(s.last() == ly);
        assert(!crate::text::is_space(ly));
        assert(crate::text::trailing_spaces(s) == 0);
        assert(s.take(3) =~= s);
    }
    assert(letter_day(s) is None);
    assert(crate::text::first_index(s.drop_first(), '-') == Some(0int));
    assert(crate::text::first_index(s, '-') == Some(1int));
    assert(s.take(1) =~= seq![lx]);
    assert(s.skip(2) =~= seq![ly]);
    assert(split_once(s, '-') == Some((seq![lx], seq![ly])));
    assert(piece_days(trim(s)) == Ok::<Seq<Day>, Seq<char>>(days_between(lx, ly)));
    let rs = split_char(s, ',').map_values(|p: Seq<char>| piece_days(trim(p)));
    assert(rs =~= seq![Ok::<Seq<Day>, Seq<char>>(days_between(lx, ly))]);
    assert(rs.drop_last() =~= Seq::<Result<Seq<Day>, Seq<char>>>::empty());
    assert(collect_all(rs) == Ok::<Seq<Seq<Day>>, Seq<char>>(seq![days_between(lx, ly)])) by {
        assert(collect_all(rs.drop_last()) == Ok::<Seq<Seq<Day>>, Seq<char>>(seq![]));
        assert(rs.last() == Ok::<Seq<Day>, Seq<char>>(days_between(lx, ly)));
        assert(Seq::<Seq<Day>>::empty().push(days_between(lx, ly)) =~= seq![days_between(lx, ly)]);
    }
    let parts = seq![days_between(lx, ly)];
    assert(parts.drop_last() =~= Seq::<Seq<Day>>::empty());
    assert(Seq::<Seq<Day>>::empty().flatten_alt() == Seq::<Day>::empty());
    assert(parts.last() == days_between(lx, ly));
    assert(parts.flatten_alt() =~= days_between(lx, ly));
    lemma_days_between_range(lx, ly);
}

} // verus!
