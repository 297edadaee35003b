//! Reading a pasted schedule: splitting it into semesters, rows and classes.
use vstd::prelude::*;
use crate::class::{
    bad_pattern, bad_pattern_msg, collect_all, lemma_collect_err_sticks, lemma_collect_step,
    message, outcome, parse_day, parse_day_spec, parse_mods, parse_mods_spec, Class, ClassView,
    Day, Semester,
};
use crate::pattern::{compile, find_all, is_match, regex_compiles, regex_find_all, regex_is_match};
use crate::text::{
    chars_eq, chars_of, contains_chars, contains_seq, decimal, decimal_exec, find_char, first_index,
    lemma_first_index, lines, lines_exec, push_all, replace, replace_exec, split_char,
    split_char_exec, split_once, split_once_chars, starts_with, starts_with_chars, string_of,
    trim, trim_chars, trim_end_char, trim_end_char_exec, views,
};

verus! {

/// Pattern of a mods-and-days field that lists several groups, e.g. `1-2(A) 3(B-D)`.
pub const FIELD_PATTERN: &'static str = "^[\\w-]+\\([^()]*\\)( [\\w-]+\\([^()]*\\))*$";

/// Pattern of one group of mods and days, e.g. `3-4(A,C)`.
pub const GROUP_PATTERN: &'static str = "\\d+-?\\d*\\([^)]+\\)|\\d+\\([^)]+\\)";

/// Days and mods of one group such as `3-4(A,C)`: the text before the first
/// `(` holds the mods, the text after it (without closing brackets) the days.
pub open spec fn group_spec(group: Seq<char>) -> Result<(Seq<Day>, Seq<u8>), Seq<char>> {
    match split_once(group, '(') {
        Some((mod_str, day_str)) => match parse_day_spec(trim_end_char(day_str, ')')) {
            Err(e) => Err(e),
            Ok(days) => match parse_mods_spec(mod_str) {
                Err(e) => Err(e),
                Ok(mods) => Ok((days, mods)),
            },
        },
        None => Err(seq![]),
    }
}

/// All days and all mods of a list of groups, in order.
pub open spec fn join_groups(groups: Seq<(Seq<Day>, Seq<u8>)>) -> (Seq<Day>, Seq<u8>) {
    (
        groups.map_values(|g: (Seq<Day>, Seq<u8>)| g.0).flatten_alt(),
        groups.map_values(|g: (Seq<Day>, Seq<u8>)| g.1).flatten_alt(),
    )
}

/// Days and mods of the groups found in a field.
pub open spec fn groups_spec(found: Seq<Seq<char>>) -> Result<(Seq<Day>, Seq<u8>), Seq<char>> {
    match collect_all(found.map_values(|g: Seq<char>| group_spec(g))) {
        Ok(groups) => Ok(join_groups(groups)),
        Err(e) => Err(e),
    }
}

/// Whether every found group holds an opening bracket.
pub open spec fn all_bracketed(found: Seq<Seq<char>>) -> bool {
    forall|i: int| 0 <= i < found.len() ==> (#[trigger] first_index(found[i], '(')) is Some
}

/// The error given for a field without any `(`.
pub open spec fn no_bracket(item: nat, field: Seq<char>) -> Seq<char> {
    "There was no \"(\" token in line "@ + decimal(item) + ". The problematic input was "@
        + field
}

/// The error given when a found group holds no `(`.
pub open spec fn unbracketed_group(field: Seq<char>) -> Seq<char> {
    "A group without \"(\" was found in "@ + field
}

/// Days and mods of the field of row `item`, once the field pattern has been
/// tried (`matched`) and, for a matching field, the group pattern has found
/// `found`: a matching field takes the days and mods of its groups, any
/// other field is read as a single group.
pub open spec fn field_checked(
    item: nat,
    field: Seq<char>,
    matched: bool,
    found: Seq<Seq<char>>,
) -> Result<(Seq<Day>, Seq<u8>), Seq<char>> {
    if matched {
        if !all_bracketed(found) {
            Err(unbracketed_group(field))
        } else {
            groups_spec(found)
        }
    } else {
        match split_once(field, '(') {
            None => Err(no_bracket(item, field)),
            Some(_) => group_spec(field),
        }
    }
}

/// Days and mods of the field of row `item`.
pub open spec fn field_spec(item: nat, field: Seq<char>) -> Result<(Seq<Day>, Seq<u8>), Seq<char>> {
    if !regex_compiles(FIELD_PATTERN@) {
        Err(bad_pattern(FIELD_PATTERN@))
    } else if regex_is_match(FIELD_PATTERN@, field) {
        if !regex_compiles(GROUP_PATTERN@) {
            Err(bad_pattern(GROUP_PATTERN@))
        } else {
            field_checked(item, field, true, regex_find_all(GROUP_PATTERN@, field))
        }
    } else {
        field_checked(item, field, false, seq![])
    }
}

fn days_mods_of_group(group: &[char]) -> (r: Result<(Vec<Day>, Vec<u8>), String>)
    requires
        first_index(group@, '(') is Some,
    ensures
        match r {
            Ok((d, m)) => group_spec(group@) == Ok::<(Seq<Day>, Seq<u8>), Seq<char>>((d@, m@)),
            Err(e) => group_spec(group@) == Err::<(Seq<Day>, Seq<u8>), Seq<char>>(e@),
        },
{
    proof {
        lemma_first_index(group@, '(');
    }
    let (mod_str, day_str) = split_once_chars(group, '(').unwrap();
    let day_part = trim_end_char_exec(&day_str, ')');
    let days = match parse_day(string_of(&day_part).as_str()) {
        Ok(d) => d,
        Err(e) => return Err(e),
    };
    let mods = match parse_mods(string_of(&mod_str).as_str()) {
        Ok(m) => m,
        Err(e) => return Err(e),
    };
    Ok((days, mods))
}

/// Days and mods of the groups that the group pattern found in a field, each
/// group holding a `(`: the mods before it, the days after it.
pub fn parse_groups(found: &Vec<String>) -> (r: Result<(Vec<Day>, Vec<u8>), String>)
    requires
        all_bracketed(found@.map_values(|g: String| g@)),
    ensures
        match r {
            Ok((d, m)) => groups_spec(found@.map_values(|g: String| g@)) == Ok::<
                (Seq<Day>, Seq<u8>),
                Seq<char>,
            >((d@, m@)),
            Err(e) => groups_spec(found@.map_values(|g: String| g@)) == Err::<
                (Seq<Day>, Seq<u8>),
                Seq<char>,
            >(e@),
        },
{
    let ghost fv = found@.map_values(|g: String| g@);
    let ghost rs = fv.map_values(|g: Seq<char>| group_spec(g));
    let ghost mut groups: Seq<(Seq<Day>, Seq<u8>)> = seq![];
    let mut days: Vec<Day> = Vec::new();
    let mut mods: Vec<u8> = Vec::new();
    assert(rs.take(0) =~= seq![]);
    assert(join_groups(groups) =~= (seq![], seq![]));
    for i in 0..found.len()
        invariant
            fv == found@.map_values(|g: String| g@),
            rs == fv.map_values(|g: Seq<char>| group_spec(g)),
            all_bracketed(fv),
            collect_all(rs.take(i as int)) == Ok::<Seq<(Seq<Day>, Seq<u8>)>, Seq<char>>(
                groups,
            ),
            join_groups(groups) == (days@, mods@),
    {
        let g = chars_of(found[i].as_str());
        assert(g@ == fv[i as int]);
        assert(first_index(fv[i as int], '(') is Some);
        proof {
            lemma_collect_step(rs, i as int);
        }
        match days_mods_of_group(&g) {
            Ok((d, m)) => {
                let ghost got = (d@, m@);
                let mut d = d;
                let mut m = m;
                days.append(&mut d);
                mods.append(&mut m);
                proof {
                    let ng = groups.push(got);
                    assert(ng.map_values(|g: (Seq<Day>, Seq<u8>)| g.0).drop_last() =~= groups.map_values(
                        |g: (Seq<Day>, Seq<u8>)| g.0,
                    ));
                    assert(ng.map_values(|g: (Seq<Day>, Seq<u8>)| g.1).drop_last() =~= groups.map_values(
                        |g: (Seq<Day>, Seq<u8>)| g.1,
                    ));
                    groups = ng;
                }
            },
            Err(e) => {
                assert(collect_all(rs.take(i + 1)) is Err);
                proof {
                    lemma_collect_err_sticks(rs, i + 1);
                }
                return Err(e);
            },
        }
    }
    assert(rs.take(rs.len() as int) =~= rs);
    Ok((days, mods))
}

/// Days and mods of the mods-and-days field of row `item` once the field
/// pattern has been tried: `matched` is its answer and `found` the groups
/// that the group pattern found in a matching field.
pub fn parse_field_checked(item: usize, field: &str, matched: bool, found: &Vec<String>) -> (r:
    Result<(Vec<Day>, Vec<u8>), String>)
    ensures
        match r {
            Ok((d, m)) => field_checked(item as nat, field@, matched, found@.map_values(|g: String| g@))
                == Ok::<(Seq<Day>, Seq<u8>), Seq<char>>((d@, m@)),
            Err(e) => field_checked(item as nat, field@, matched, found@.map_values(|g: String| g@))
                == Err::<(Seq<Day>, Seq<u8>), Seq<char>>(e@),
        },
{
    let chars = chars_of(field);
    if matched {
        let ghost fv = found@.map_values(|g: String| g@);
        for i in 0..found.len()
            invariant
                matched,
                fv == found@.map_values(|g: String| g@),
                chars@ == field@,
                forall|j: int| 0 <= j < i ==> (#[trigger] first_index(fv[j], '(')) is Some,
        {
            let g = chars_of(found[i].as_str());
            assert(g@ == fv[i as int]);
            if find_char(&g, '(').is_none() {
                assert(!all_bracketed(fv));
                return Err(message("A group without \"(\" was found in ", &chars));
            }
        }
        parse_groups(found)
    } else {
        match split_once_chars(&chars, '(') {
            None => {
                let mut v = chars_of("There was no \"(\" token in line ");
                let n = decimal_exec(item);
                push_all(&mut v, &n);
                let t = chars_of(". The problematic input was ");
                push_all(&mut v, &t);
                push_all(&mut v, &chars);
                Err(string_of(&v))
            },
            Some(_) => days_mods_of_group(&chars),
        }
    }
}

/// Days and mods of the mods-and-days field of row `item`, e.g. `2(A,C-D)`.
pub fn parse_field(item: usize, field: &str) -> (r: Result<(Vec<Day>, Vec<u8>), String>)
    ensures
        match r {
            Ok((d, m)) => field_spec(item as nat, field@) == Ok::<(Seq<Day>, Seq<u8>), Seq<char>>(
                (d@, m@),
            ),
            Err(e) => field_spec(item as nat, field@) == Err::<(Seq<Day>, Seq<u8>), Seq<char>>(
                e@,
            ),
        },
{
    let whole = match compile(FIELD_PATTERN) {
        Some(re) => re,
        None => return Err(bad_pattern_msg(FIELD_PATTERN)),
    };
    if is_match(&whole, field) {
        let group = match compile(GROUP_PATTERN) {
            Some(re) => re,
            None => return Err(bad_pattern_msg(GROUP_PATTERN)),
        };
        let found = find_all(&group, field);
        parse_field_checked(item, field, true, &found)
    } else {
        let none: Vec<String> = Vec::new();
        assert(none@.map_values(|g: String| g@) =~= seq![]);
        parse_field_checked(item, field, false, &none)
    }
}

/// One row of a semester: its eight tab-separated fields, trimmed.
pub struct Row {
    pub fields: Vec<String>,
}

impl View for Row {
    type V = Seq<Seq<char>>;

    open spec fn view(&self) -> Seq<Seq<char>> {
        self.fields@.map_values(|f: String| f@)
    }
}

/// The term named by a semester field.
pub open spec fn semester_of(s: Seq<char>) -> Option<Semester> {
    if s == "S1"@ {
        Some(Semester::S1)
    } else if s == "S2"@ {
        Some(Semester::S2)
    } else if s == "Y24-25"@ {
        Some(Semester::Year)
    } else {
        None
    }
}

/// The class described by row `item` (its fields: mods and days, term, code,
/// name, teacher, room, first and last date).
pub open spec fn class_spec(item: nat, row: Seq<Seq<char>>) -> Result<ClassView, Seq<char>> {
    match field_spec(item, row[0]) {
        Err(e) => Err(e),
        Ok((days, mods)) => match semester_of(row[1]) {
            None => Err("Unknown semester '"@ + row[1] + "'"@),
            Some(semester) => Ok(
                ClassView {
                    days,
                    mods,
                    semester,
                    short_name: row[2],
                    long_name: row[3],
                    teacher: row[4],
                    room: row[5],
                    start: row[6],
                    end: row[7],
                },
            ),
        },
    }
}

/// The classes of the rows, or the first error.
pub open spec fn classes_spec(rows: Seq<Seq<Seq<char>>>) -> Result<Seq<ClassView>, Seq<char>> {
    collect_all(Seq::new(rows.len(), |i: int| class_spec(i as nat, rows[i])))
}

/// The views of a list of classes.
pub open spec fn class_views(v: Seq<Class>) -> Seq<ClassView> {
    v.map_values(|c: Class| c@)
}

/// The result of building classes, as a mathematical value.
pub open spec fn classes_outcome(r: Result<Vec<Class>, String>) -> Result<Seq<ClassView>, Seq<char>> {
    match r {
        Ok(v) => Ok(class_views(v@)),
        Err(e) => Err(e@),
    }
}

fn semester_of_exec(s: &[char]) -> (r: Option<Semester>)
    ensures
        r == semester_of(s@),
{
    if chars_eq(s, &chars_of("S1")) {
        Some(Semester::S1)
    } else if chars_eq(s, &chars_of("S2")) {
        Some(Semester::S2)
    } else if chars_eq(s, &chars_of("Y24-25")) {
        Some(Semester::Year)
    } else {
        None
    }
}

/// Builds the class of row `item`.
pub fn class_from_row(item: usize, row: &Row) -> (r: Result<Class, String>)
    requires
        row@.len() == 8,
    ensures
        outcome(r) == class_spec(item as nat, row@),
{
    assert(row.fields@[0]@ == row@[0]);
    let (days, mods) = match parse_field(item, row.fields[0].as_str()) {
        Ok(dm) => dm,
        Err(e) => return Err(e),
    };
    let sem = chars_of(row.fields[1].as_str());
    assert(sem@ == row@[1]);
    let semester = match semester_of_exec(&sem) {
        Some(s) => s,
        None => {
            let mut v = chars_of("Unknown semester '");
            push_all(&mut v, &sem);
            let q = chars_of("'");
            push_all(&mut v, &q);
            return Err(string_of(&v));
        },
    };
    proof {
        assert forall|k: int| 2 <= k < 8 implies row.fields@[k]@ == row@[k] by {}
    }
    let c = Class {
        days,
        mods,
        semester,
        short_name: row.fields[2].clone(),
        long_name: row.fields[3].clone(),
        teacher: row.fields[4].clone(),
        room: row.fields[5].clone(),
        start: row.fields[6].clone(),
        end: row.fields[7].clone(),
    };
    Ok(c)
}

/// The views of a list of rows.
pub open spec fn row_views(v: Seq<Row>) -> Seq<Seq<Seq<char>>> {
    v.map_values(|r: Row| r@)
}

/// Builds the class of every row, stopping at the first row that fails.
pub fn sort_by_day(rows: &Vec<Row>) -> (r: Result<Vec<Class>, String>)
    requires
        forall|i: int| 0 <= i < rows@.len() ==> (#[trigger] rows@[i])@.len() == 8,
    ensures
        classes_outcome(r) == classes_spec(row_views(rows@)),
{
    let ghost rv = row_views(rows@);
    let ghost rs = Seq::new(rv.len(), |i: int| class_spec(i as nat, rv[i]));
    let mut classes: Vec<Class> = Vec::new();
    assert(rs.take(0) =~= seq![]);
    assert(class_views(classes@) =~= seq![]);
    for i in 0..rows.len()
        invariant
            rv == row_views(rows@),
            rs == Seq::new(rv.len(), |i: int| class_spec(i as nat, rv[i])),
            forall|i: int| 0 <= i < rows@.len() ==> (#[trigger] rows@[i])@.len() == 8,
            collect_all(rs.take(i as int)) == Ok::<Seq<ClassView>, Seq<char>>(
                class_views(classes@),
            ),
    {
        assert(rows@[i as int]@ == rv[i as int]);
        proof {
            lemma_collect_step(rs, i as int);
        }
        match class_from_row(i, &rows[i]) {
            Ok(c) => {
                let ghost before = classes@;
                classes.push(c);
                assert(class_views(classes@) =~= class_views(before).push(c@));
            },
            Err(e) => {
                assert(collect_all(rs.take(i + 1)) is Err);
                proof {
                    lemma_collect_err_sticks(rs, i + 1);
                }
                return Err(e);
            },
        }
    }
    assert(rs.take(rs.len() as int) =~= rs);
    Ok(classes)
}

/// Whether a line of a semester is kept: it is not blank and does not
/// start with `RC` or `CC`.
pub open spec fn kept_line(line: Seq<char>) -> bool {
    trim(line).len() > 0 && !starts_with(line, "RC"@) && !starts_with(line, "CC"@)
}

/// The kept lines, in order.
pub open spec fn keep_lines(ls: Seq<Seq<char>>) -> Seq<Seq<char>>
    decreases ls.len(),
{
    if ls.len() == 0 {
        seq![]
    } else if kept_line(ls.last()) {
        keep_lines(ls.drop_last()).push(ls.last())
    } else {
        keep_lines(ls.drop_last())
    }
}

/// How many heading lines open the kept lines: a `Semester` line, possibly
/// followed by a column heading naming `Teacher` and `Crs-Sec`, or a lone
/// column heading naming `Teacher` and `Crs`.
pub open spec fn heading_len(ls: Seq<Seq<char>>) -> int {
    if contains_seq(ls[0], "Semester"@) {
        if contains_seq(ls[1], "Teacher"@) && contains_seq(ls[1], "Crs-Sec"@) {
            2
        } else {
            1
        }
    } else if contains_seq(ls[0], "Teacher"@) && contains_seq(ls[0], "Crs"@) {
        1
    } else {
        0
    }
}

/// Whether reading the heading would look past the kept lines: nothing was
/// kept, or only a `Semester` line was.
pub open spec fn heading_missing(ls: Seq<Seq<char>>) -> bool {
    ls.len() == 0 || (contains_seq(ls[0], "Semester"@) && ls.len() == 1)
}

/// The fields of line `num` of a semester's body: runs of four spaces count
/// as tabs, and the trimmed line is cut at tabs into eight trimmed fields.
pub open spec fn row_spec(num: nat, line: Seq<char>) -> Result<Seq<Seq<char>>, Seq<char>> {
    let fields = split_char(trim(replace(line, "    "@, "\t"@)), '\t').map_values(
        |f: Seq<char>| trim(f),
    );
    if fields.len() == 8 {
        Ok(fields)
    } else {
        Err("Not enough arguments provided in line "@ + decimal(num))
    }
}

/// The rows of a semester's body, or the first error.
pub open spec fn rows_spec(body: Seq<Seq<char>>) -> Result<Seq<Seq<Seq<char>>>, Seq<char>> {
    collect_all(Seq::new(body.len(), |i: int| row_spec(i as nat, body[i])))
}

/// Whether `resolve_semester` would index past its lines on `input`.
pub open spec fn resolve_fails(input: Seq<char>) -> bool {
    lines(input).len() > 2 && heading_missing(keep_lines(lines(input)))
}

/// The classes of one semester's text.
pub open spec fn resolve_spec(input: Seq<char>) -> Result<Seq<ClassView>, Seq<char>> {
    let ls = lines(input);
    if ls.len() <= 2 {
        Err("Not enough lines"@)
    } else {
        let k = keep_lines(ls);
        match rows_spec(k.skip(heading_len(k))) {
            Err(e) => Err(e),
            Ok(rows) => classes_spec(rows),
        }
    }
}

fn kept_line_exec(line: &[char]) -> (r: bool)
    ensures
        r == kept_line(line@),
{
    let t = trim_chars(line);
    t.len() > 0 && !starts_with_chars(line, &chars_of("RC")) && !starts_with_chars(
        line,
        &chars_of("CC"),
    )
}

fn keep_lines_exec(ls: &Vec<Vec<char>>) -> (r: Vec<Vec<char>>)
    ensures
        views(r@) == keep_lines(views(ls@)),
{
    let ghost lv = views(ls@);
    let mut r: Vec<Vec<char>> = Vec::new();
    assert(lv.take(0) =~= seq![]);
    assert(views(r@) =~= seq![]);
    for i in 0..ls.len()
        invariant
            lv == views(ls@),
            views(r@) == keep_lines(lv.take(i as int)),
    {
        assert(lv.take(i + 1).drop_last() =~= lv.take(i as int));
        assert(ls@[i as int]@ == lv[i as int]);
        if kept_line_exec(&ls[i]) {
            let c = crate::text::copy_chars(&ls[i]);
            let ghost before = r@;
            r.push(c);
            assert(views(r@) =~= views(before).push(c@));
        }
    }
    assert(lv.take(lv.len() as int) =~= lv);
    r
}

fn heading_len_exec(ls: &Vec<Vec<char>>) -> (r: usize)
    requires
        !heading_missing(views(ls@)),
    ensures
        r as int == heading_len(views(ls@)),
        r <= ls@.len(),
{
    assert(ls@[0]@ == views(ls@)[0]);
    if contains_chars(&ls[0], &chars_of("Semester")) {
        assert(ls@[1]@ == views(ls@)[1]);
        if contains_chars(&ls[1], &chars_of("Teacher")) && contains_chars(
            &ls[1],
            &chars_of("Crs-Sec"),
        ) {
            2
        } else {
            1
        }
    } else if contains_chars(&ls[0], &chars_of("Teacher")) && contains_chars(
        &ls[0],
        &chars_of("Crs"),
    ) {
        1
    } else {
        0
    }
}

fn row_exec(num: usize, line: &[char]) -> (r: Result<Row, String>)
    ensures
        match r {
            Ok(row) => row_spec(num as nat, line@) == Ok::<Seq<Seq<char>>, Seq<char>>(row@),
            Err(e) => row_spec(num as nat, line@) == Err::<Seq<Seq<char>>, Seq<char>>(e@),
        },
{
    let four = chars_of("    ");
    let tab = chars_of("\t");
    proof {
        reveal_strlit("    ");
    }
    let replaced = replace_exec(line, &four, &tab);
    let t = trim_chars(&replaced);
    let parts = split_char_exec(&t, '\t');
    let ghost want = split_char(t@, '\t').map_values(|f: Seq<char>| trim(f));
    if parts.len() != 8 {
        let mut v = chars_of("Not enough arguments provided in line ");
        let n = decimal_exec(num);
        push_all(&mut v, &n);
        return Err(string_of(&v));
    }
    let mut fields: Vec<String> = Vec::new();
    for i in 0..parts.len()
        invariant
            views(parts@) == split_char(t@, '\t'),
            want == split_char(t@, '\t').map_values(|f: Seq<char>| trim(f)),
            fields@.len() == i,
            forall|j: int| 0 <= j < i ==> (#[trigger] fields@[j])@ == want[j],
    {
        assert(parts@[i as int]@ == views(parts@)[i as int]);
        let f = trim_chars(&parts[i]);
        fields.push(string_of(&f));
    }
    let row = Row { fields };
    assert(row@ =~= want);
    Ok(row)
}

/// Reads the classes of one semester's text: drops blank lines and lines
/// starting with `RC` or `CC`, skips the heading, cuts each remaining line
/// into eight fields and builds a class from each.
pub fn resolve_semester(input: &str) -> (r: Result<Vec<Class>, String>)
    requires
        !resolve_fails(input@),
    ensures
        classes_outcome(r) == resolve_spec(input@),
{
    let chars = chars_of(input);
    let ls = lines_exec(&chars);
    if ls.len() <= 2 {
        return Err(string_of(&chars_of("Not enough lines")));
    }
    let kept = keep_lines_exec(&ls);
    let start = heading_len_exec(&kept);
    let ghost body = views(kept@).skip(start as int);
    let ghost rs = Seq::new(body.len(), |i: int| row_spec(i as nat, body[i]));
    let mut rows: Vec<Row> = Vec::new();
    assert(rs.take(0) =~= seq![]);
    assert(row_views(rows@) =~= seq![]);
    let mut num: usize = start;
    while num < kept.len()
        invariant
            start <= num <= kept@.len(),
            lines(input@).len() > 2,
            views(kept@) == keep_lines(lines(input@)),
            start as int == heading_len(views(kept@)),
            body == views(kept@).skip(start as int),
            rs == Seq::new(body.len(), |i: int| row_spec(i as nat, body[i])),
            collect_all(rs.take(num - start)) == Ok::<Seq<Seq<Seq<char>>>, Seq<char>>(
                row_views(rows@),
            ),
            forall|i: int| 0 <= i < rows@.len() ==> (#[trigger] rows@[i])@.len() == 8,
        decreases kept@.len() - num,
    {
        let k = num - start;
        assert(kept@[num as int]@ == body[k as int]);
        proof {
            lemma_collect_step(rs, k as int);
        }
        match row_exec(k, &kept[num]) {
            Ok(row) => {
                let ghost before = rows@;
                rows.push(row);
                assert(row_views(rows@) =~= row_views(before).push(row@));
                assert(rs.take(k + 1) =~= rs.take(num + 1 - start));
            },
            Err(e) => {
                assert(collect_all(rs.take(k + 1)) is Err);
                proof {
                    lemma_collect_err_sticks(rs, k + 1);
                }
                return Err(e);
            },
        }
        num = num + 1;
    }
    assert(rs.take(rs.len() as int) =~= rs);
    sort_by_day(&rows)
}

/// Index of the first line naming `Semester 2`, or the number of lines.
pub open spec fn second_start(ls: Seq<Seq<char>>) -> int
    decreases ls.len(),
{
    if ls.len() == 0 {
        0
    } else {
        let k = second_start(ls.drop_last());
        if k < ls.len() - 1 {
            k
        } else if contains_seq(ls.last(), "Semester 2"@) {
            ls.len() - 1
        } else {
            ls.len() as int
        }
    }
}

pub proof fn lemma_second_start(ls: Seq<Seq<char>>)
    ensures
        0 <= second_start(ls) <= ls.len(),
        forall|j: int| 0 <= j < second_start(ls) ==> !contains_seq(#[trigger] ls[j], "Semester 2"@),
        second_start(ls) < ls.len() ==> contains_seq(ls[second_start(ls)], "Semester 2"@),
    decreases ls.len(),
{
    if ls.len() > 0 {
        lemma_second_start(ls.drop_last());
        assert forall|j: int| 0 <= j < second_start(ls) implies !contains_seq(
            #[trigger] ls[j],
            "Semester 2"@,
        ) by {
            if j < ls.len() - 1 {
                assert(ls[j] == ls.drop_last()[j]);
            }
        }
    }
}

/// The lines, each followed by a line feed.
pub open spec fn join_lines(ls: Seq<Seq<char>>) -> Seq<char>
    decreases ls.len(),
{
    if ls.len() == 0 {
        seq![]
    } else {
        join_lines(ls.drop_last()) + ls.last() + seq!['\n']
    }
}

/// The two semesters of a pasted schedule: the lines before the first line
/// naming `Semester 2`, and the lines from it on, each part trimmed.
pub open spec fn split_semesters_spec(input: Seq<char>) -> (Seq<char>, Seq<char>) {
    let ls = lines(input);
    let k = second_start(ls);
    (trim(join_lines(ls.take(k))), trim(join_lines(ls.skip(k))))
}

/// Splits a pasted schedule into the text of its first and second semester.
pub fn split_semesters(input: &str) -> (r: (String, String))
    ensures
        (r.0@, r.1@) == split_semesters_spec(input@),
{
    let chars = chars_of(input);
    let ls = lines_exec(&chars);
    let ghost lv = views(ls@);
    let mut sem1: Vec<char> = Vec::new();
    let mut sem2: Vec<char> = Vec::new();
    let mut in_sem2 = false;
    let ghost mut k: int = 0;
    let marker = chars_of("Semester 2");
    for i in 0..ls.len()
        invariant
            lv == views(ls@),
            marker@ == "Semester 2"@,
            k == second_start(lv.take(i as int)),
            0 <= k <= i,
            in_sem2 == (k < i),
            !in_sem2 ==> k == i,
            sem1@ == join_lines(lv.take(k)),
            sem2@ == join_lines(lv.subrange(k, i as int)),
    {
        assert(lv.take(i + 1).drop_last() =~= lv.take(i as int));
        assert(ls@[i as int]@ == lv[i as int]);
        assert(lv.take(i + 1).last() == lv[i as int]);
        if contains_chars(&ls[i], &marker) {
            in_sem2 = true;
        }
        if in_sem2 {
            proof {
                if k == i {
                    assert(lv.subrange(k, i as int) =~= seq![]);
                }
                assert(lv.subrange(k, i + 1).drop_last() =~= lv.subrange(k, i as int));
            }
            push_all(&mut sem2, &ls[i]);
            sem2.push('\n');
        } else {
            proof {
                assert(lv.take(i + 1).drop_last() =~= lv.take(i as int));
                assert(lv.subrange(i + 1, i + 1) =~= seq![]);
            }
            push_all(&mut sem1, &ls[i]);
            sem1.push('\n');
        }
        proof {
            if !(k < i) && in_sem2 {
                assert(lv.subrange(i as int, i + 1) =~= seq![lv[i as int]]);
                assert(seq![lv[i as int]].drop_last() =~= seq![]);
                k = i as int;
            } else if !(k < i) {
                k = i + 1;
            }
        }
    }
    assert(lv.take(lv.len() as int) =~= lv);
    assert(lv.subrange(k, lv.len() as int) =~= lv.skip(k));
    let t1 = trim_chars(&sem1);
    let t2 = trim_chars(&sem2);
    (string_of(&t1), string_of(&t2))
}

/// Whether reading either semester of `input` would index past its lines.
pub open spec fn schedule_fails(input: Seq<char>) -> bool {
    let (sem1, sem2) = split_semesters_spec(input);
    sem1.len() > 0 && sem2.len() > 0 && (resolve_fails(sem1) || resolve_fails(sem2))
}

/// The error given when either semester is missing.
pub open spec fn missing_semester() -> Seq<char> {
    "Please provide both semesters"@
}

/// What `get_schedule` gives for `input`: the classes of each semester, or,
/// when either semester is empty, an error for the first and no classes for
/// the second.
pub open spec fn get_schedule_spec(input: Seq<char>) -> (
    Result<Seq<ClassView>, Seq<char>>,
    Result<Seq<ClassView>, Seq<char>>,
) {
    let (sem1, sem2) = split_semesters_spec(input);
    if sem1.len() == 0 || sem2.len() == 0 {
        (Err(missing_semester()), Ok(seq![]))
    } else {
        (resolve_spec(sem1), resolve_spec(sem2))
    }
}

/// Reads the classes of both semesters of a pasted schedule.
pub fn get_schedule(input: &str) -> (r: (Result<Vec<Class>, String>, Result<Vec<Class>, String>))
    requires
        !schedule_fails(input@),
    ensures
        (classes_outcome(r.0), classes_outcome(r.1)) == get_schedule_spec(input@),
{
    let (sem1, sem2) = split_semesters(input);
    if sem1.as_str().is_empty() || sem2.as_str().is_empty() {
        let e = string_of(&chars_of("Please provide both semesters"));
        let none: Vec<Class> = Vec::new();
        assert(class_views(none@) =~= seq![]);
        return (Err(e), Ok(none));
    }
    let c1 = resolve_semester(sem1.as_str());
    let c2 = resolve_semester(sem2.as_str());
    (c1, c2)
}

/// Whether `resolve_semester` may be called on `input`.
pub fn semester_readable(input: &str) -> (r: bool)
    ensures
        r == !resolve_fails(input@),
{
    let chars = chars_of(input);
    let ls = lines_exec(&chars);
    if ls.len() <= 2 {
        return true;
    }
    let kept = keep_lines_exec(&ls);
    if kept.len() == 0 {
        return false;
    }
    assert(kept@[0]@ == views(kept@)[0]);
    !(contains_chars(&kept[0], &chars_of("Semester")) && kept.len() == 1)
}

/// Whether `get_schedule` may be called on `input`.
pub fn schedule_readable(input: &str) -> (r: bool)
    ensures
        r == !schedule_fails(input@),
{
    let (sem1, sem2) = split_semesters(input);
    if sem1.as_str().is_empty() || sem2.as_str().is_empty() {
        return true;
    }
    semester_readable(sem1.as_str()) && semester_readable(sem2.as_str())
}

/// A pasted schedule with no line naming `Semester 2` is refused with the
/// request to provide both semesters.
pub proof fn lemma_second_semester_required(input: Seq<char>)
    requires
        forall|i: int| 0 <= i < lines(input).len() ==> !contains_seq(#[trigger] lines(input)[i], "Semester 2"@),
    ensures
        get_schedule_spec(input).0 == Err::<Seq<ClassView>, Seq<char>>(missing_semester()),
        get_schedule_spec(input).1 == Ok::<Seq<ClassView>, Seq<char>>(seq![]),
{
    let ls = lines(input);
    lemma_second_start(ls);
    assert(second_start(ls) == ls.len());
    assert(ls.skip(ls.len() as int) =~= seq![]);
    assert(join_lines(ls.skip(ls.len() as int)) =~= seq![]);
    assert(trim(seq![]) =~= seq![]);
}

/// The message answered when a schedule cannot be read: the error of the
/// one semester that failed, or both errors joined when both failed.
pub open spec fn schedule_error_spec(
    r: (Result<Seq<ClassView>, Seq<char>>, Result<Seq<ClassView>, Seq<char>>),
) -> Option<Seq<char>> {
    match r {
        (Ok(_), Ok(_)) => None,
        (Ok(_), Err(e)) => Some(e),
        (Err(e), Ok(_)) => Some(e),
        (Err(e1), Err(e2)) => Some("Semester 1 error: "@ + e1 + " \nSemester 2 error: "@ + e2),
    }
}

/// The message to answer for the result of `get_schedule`, or `None` when
/// both semesters were read.
pub fn schedule_error(r: &(Result<Vec<Class>, String>, Result<Vec<Class>, String>)) -> (m: Option<
    String,
>)
    ensures
        match m {
            Some(s) => schedule_error_spec((classes_outcome(r.0), classes_outcome(r.1))) == Some(
                s@,
            ),
            None => schedule_error_spec((classes_outcome(r.0), classes_outcome(r.1))) is None,
        },
{
    match (&r.0, &r.1) {
        (Ok(_), Ok(_)) => None,
        (Ok(_), Err(e)) => Some(e.clone()),
        (Err(e), Ok(_)) => Some(e.clone()),
        (Err(e1), Err(e2)) => {
            let mut v = chars_of("Semester 1 error: ");
            push_all(&mut v, &chars_of(e1.as_str()));
            push_all(&mut v, &chars_of(" \nSemester 2 error: "));
            push_all(&mut v, &chars_of(e2.as_str()));
            Some(string_of(&v))
        },
    }
}

/// Inserting a line that is not kept (blank, or starting with `RC` or `CC`)
/// anywhere leaves the kept lines unchanged.
pub proof fn lemma_keep_lines_insert(ls: Seq<Seq<char>>, i: int, l: Seq<char>)
    requires
        0 <= i <= ls.len(),
        !kept_line(l),
    ensures
        keep_lines(ls.insert(i, l)) == keep_lines(ls),
    decreases ls.len(),
{
    let ins = ls.insert(i, l);
    if i == ls.len() {
        assert(ins.drop_last() =~= ls);
        assert(ins.last() == l);
    } else {
        lemma_keep_lines_insert(ls.drop_last(), i, l);
        assert(ins.drop_last() =~= ls.drop_last().insert(i, l));
        assert(ins.last() == ls.last());
    }
}

/// Two semesters of more than two lines whose kept lines agree are read alike.
pub proof fn lemma_resolve_reads_kept_lines(a: Seq<char>, b: Seq<char>)
    requires
        lines(a).len() > 2,
        lines(b).len() > 2,
        keep_lines(lines(a)) == keep_lines(lines(b)),
    ensures
        resolve_spec(a) == resolve_spec(b),
        resolve_fails(a) == resolve_fails(b),
{
}

/// A line that is blank or starts with `RC` or `CC`, inserted anywhere into
/// a semester of more than two lines, changes nothing: not the heading, not
/// the rows or the row numbers in messages, and not whether the semester can
/// be read.
pub proof fn lemma_ignored_line_insert(input: Seq<char>, input2: Seq<char>, i: int, l: Seq<char>)
    requires
        lines(input).len() > 2,
        0 <= i <= lines(input).len(),
        trim(l).len() == 0 || starts_with(l, "RC"@) || starts_with(l, "CC"@),
        lines(input2) == lines(input).insert(i, l),
    ensures
        resolve_spec(input2) == resolve_spec(input),
        resolve_fails(input2) == resolve_fails(input),
{
    lemma_keep_lines_insert(lines(input), i, l);
    lemma_resolve_reads_kept_lines(input, input2);
}

/// White space other than a plain space (a tab, a carriage return) at
/// either end of a row line does not change the row: the line is trimmed
/// before it is cut into fields.
pub proof fn lemma_row_ignores_outer_space(num: nat, line: Seq<char>, c: char)
    requires
        crate::text::is_space(c),
        c != ' ',
    ensures
        row_spec(num, line.push(c)) == row_spec(num, line),
        row_spec(num, seq![c] + line) == row_spec(num, line),
{
    reveal_strlit("    ");
    let four = "    "@;
    let tab = "\t"@;
    assert(four.last() == ' ');
    assert(four[0] == ' ');
    crate::text::lemma_replace_push(line, four, tab, c);
    crate::text::lemma_replace_prepend(line, four, tab, c);
    crate::text::lemma_trim_push_space(replace(line, four, tab), c);
    crate::text::lemma_trim_prepend_space(replace(line, four, tab), c);
}

proof fn lemma_crs_sec_names_crs(h: Seq<char>)
    requires
        contains_seq(h, "Crs-Sec"@),
    ensures
        contains_seq(h, "Crs"@),
{
    reveal_strlit("Crs-Sec");
    reveal_strlit("Crs");
    let i = choose|i: int| crate::text::occurs_at(h, "Crs-Sec"@, i);
    assert(h.subrange(i, i + 3) =~= "Crs"@) by {
        assert forall|k: int| 0 <= k < 3 implies h.subrange(i, i + 3)[k] == "Crs"@[k] by {
            assert(h.subrange(i, i + 7)[k] == "Crs-Sec"@[k]);
        }
    }
    assert(crate::text::occurs_at(h, "Crs"@, i));
}

/// A column heading naming `Teacher` and `Crs-Sec` is never read as a row:
/// a semester whose kept lines open with it is read exactly like one whose
/// kept lines open with a `Semester` line followed by the same heading.
pub proof fn lemma_column_heading_skipped(
    a: Seq<char>,
    b: Seq<char>,
    title: Seq<char>,
    heading: Seq<char>,
    rows: Seq<Seq<char>>,
)
    requires
        lines(a).len() > 2,
        lines(b).len() > 2,
        keep_lines(lines(a)) == seq![heading] + rows,
        keep_lines(lines(b)) == seq![title, heading] + rows,
        contains_seq(title, "Semester"@),
        !contains_seq(heading, "Semester"@),
        contains_seq(heading, "Teacher"@),
        contains_seq(heading, "Crs-Sec"@),
    ensures
        !resolve_fails(a),
        !resolve_fails(b),
        resolve_spec(a) == resolve_spec(b),
        resolve_spec(a) == match rows_spec(rows) {
            Err(e) => Err(e),
            Ok(r) => classes_spec(r),
        },
{
    lemma_crs_sec_names_crs(heading);
    let ka = keep_lines(lines(a));
    let kb = keep_lines(lines(b));
    assert(ka[0] == heading);
    assert(kb[0] == title);
    assert(kb[1] == heading);
    assert(heading_len(ka) == 1);
    assert(heading_len(kb) == 2);
    assert(ka.skip(1) =~= rows);
    assert(kb.skip(2) =~= rows);
}

} // verus!
