use hallway::class::{parse_day, parse_day_checked, parse_mods, parse_mods_checked, Class, Day, Semester};
use hallway::semester::{
    get_schedule, parse_field_checked, resolve_semester, schedule_error, schedule_readable,
    semester_readable, split_semesters,
};
use hallway::weekly::path;

const SEMESTER_1: &str = "Y24-25 Semester 1
Exp    Trm    Crs-Sec    Course Name    Teacher    Room    Enroll    Leave
2(A,C-D)    S1    ENG201b-1    Literary Explorations III: British    Townsend, Tracy A    A113    08/19/2024    01/19/2025
4(A-D)    S1    FAR110-1    Wind Ensemble    McCarthy, Mary Beth C    D107    08/19/2024    01/19/2025
5(A-B,D)    S1    HSS201b-3    Conflict in World History    Eysturlid, Lee    A147    08/19/2024    01/19/2025
6(A-D)    S1    WLG250-101    Spanish V    Kaluza, Marta J    A131    08/19/2024    01/19/2025
7(A-D)    S1    MAT473-2    Linear Algebra    Brummet, Evan    A135    08/19/2024    01/19/2025
8(A-D)    S1    MAT474-1    Abstract Algebra    Fogel, Micah    A155    08/19/2024    01/19/2025";

const SEMESTER_2: &str = "Y24-25 Semester 2
Exp    Trm    Crs-Sec    Course Name    Teacher    Room    Enroll    Leave
1-2(B,I)    S2    BIO350-1    Genetics    Smith, Ann    B120    01/20/2025    06/01/2025
3(A) 6(C-D)    Y24-25    CHM300-2    Chemistry    Lee, Bo    B130    08/19/2024    06/01/2025";

fn full_schedule() -> String {
    format!("{SEMESTER_1}\n{SEMESTER_2}\n")
}

fn days(v: &[Day]) -> Vec<Day> {
    v.to_vec()
}

#[test]
fn example_schedule_is_read() {
    let input = full_schedule();
    assert!(schedule_readable(&input));
    let (sem1, sem2) = get_schedule(&input);
    let sem1 = sem1.expect("first semester");
    let sem2 = sem2.expect("second semester");
    assert_eq!(sem1.len(), 6);
    assert_eq!(sem2.len(), 2);

    let eng: &Class = &sem1[0];
    assert_eq!(days(&eng.days), vec![Day::A, Day::C, Day::D]);
    assert_eq!(eng.mods, vec![2u8]);
    assert_eq!(eng.semester, Semester::S1);
    assert_eq!(eng.short_name, "ENG201b-1");
    assert_eq!(eng.long_name, "Literary Explorations III: British");
    assert_eq!(eng.teacher, "Townsend, Tracy A");
    assert_eq!(eng.room, "A113");
    assert_eq!(eng.start, "08/19/2024");
    assert_eq!(eng.end, "01/19/2025");

    assert_eq!(days(&sem1[1].days), vec![Day::A, Day::B, Day::C, Day::D]);
    assert_eq!(days(&sem1[2].days), vec![Day::A, Day::B, Day::D]);
    assert_eq!(sem1[2].mods, vec![5u8]);

    let bio = &sem2[0];
    assert_eq!(days(&bio.days), vec![Day::B, Day::I]);
    assert_eq!(bio.mods, vec![1u8, 2u8]);
    assert_eq!(bio.semester, Semester::S2);
    let chm = &sem2[1];
    assert_eq!(days(&chm.days), vec![Day::A, Day::C, Day::D]);
    assert_eq!(chm.mods, vec![3u8, 6u8]);
    assert_eq!(chm.semester, Semester::Year);
}

#[test]
fn semesters_are_split_at_the_second_heading() {
    let input = full_schedule();
    let (a, b) = split_semesters(&input);
    assert_eq!(a, SEMESTER_1);
    assert_eq!(b, SEMESTER_2);
}

#[test]
fn missing_second_semester_is_refused() {
    let (sem1, sem2) = get_schedule(SEMESTER_1);
    assert_eq!(sem1.unwrap_err(), "Please provide both semesters");
    assert!(sem2.unwrap().is_empty());
}

#[test]
fn short_semester_is_refused() {
    let input = "Semester 1\nx\nSemester 2\ny";
    let (sem1, sem2) = get_schedule(input);
    assert_eq!(sem1.unwrap_err(), "Not enough lines");
    assert_eq!(sem2.unwrap_err(), "Not enough lines");
}

#[test]
fn row_with_too_few_fields_is_refused() {
    let text = "Y24-25 Semester 1\n2(A)    S1    X1\n3(B)    S1    X2";
    assert_eq!(
        resolve_semester(text).unwrap_err(),
        "Not enough arguments provided in line 0"
    );
}

#[test]
fn unknown_semester_is_refused() {
    let text = "Semester 1\n2(A)    F1    C    N    T    R    S    E\nRC skipped\n";
    assert_eq!(resolve_semester(text).unwrap_err(), "Unknown semester 'F1'");
}

#[test]
fn field_without_bracket_is_refused() {
    let text = "Semester 1\n2A    S1    C    N    T    R    S    E\n\n";
    assert_eq!(
        resolve_semester(text).unwrap_err(),
        "There was no \"(\" token in line 0. The problematic input was 2A"
    );
}

#[test]
fn heading_only_semester_is_not_readable() {
    assert!(!semester_readable("Semester 2\nRC one\nCC two"));
    assert!(semester_readable("Semester 2\nRC one"));
    assert!(!schedule_readable("Semester 1\na\nb\nSemester 2\nRC one\nCC two"));
}

#[test]
fn day_fields_are_parsed() {
    assert_eq!(parse_day("A,C-D").unwrap(), vec![Day::A, Day::C, Day::D]);
    assert_eq!(parse_day("A-I").unwrap(), vec![Day::A, Day::B, Day::C, Day::D, Day::I]);
    assert_eq!(parse_day(" B ").unwrap(), vec![Day::B]);
    assert_eq!(parse_day("C-").unwrap(), vec![Day::C]);
    assert_eq!(parse_day("E").unwrap_err(), "Invalid day value: E");
    assert_eq!(parse_day("AB").unwrap_err(), "Unknown day pattern: AB");
    assert_eq!(parse_day("-B").unwrap_err(), "Invalid start day: -B");
}

#[test]
fn checked_day_fields_follow_the_check() {
    let chars: Vec<char> = "E".chars().collect();
    assert_eq!(parse_day_checked(&chars, false).unwrap_err(), "Invalid day value: E");
    assert_eq!(parse_day_checked(&chars, true).unwrap_err(), "Unknown day pattern: E");
}

#[test]
fn mod_fields_are_parsed() {
    assert_eq!(parse_mods("3-5").unwrap(), vec![3u8, 5u8]);
    assert_eq!(parse_mods("35").unwrap(), vec![3u8, 4u8, 5u8]);
    assert_eq!(parse_mods("7").unwrap(), vec![7u8]);
    assert_eq!(parse_mods("52").unwrap(), Vec::<u8>::new());
    assert_eq!(parse_mods("a1").unwrap(), Vec::<u8>::new());
    assert_eq!(parse_mods("3 4").unwrap_err(), "Invalid mod value: 3 4");
    let chars: Vec<char> = "1-2".chars().collect();
    assert_eq!(parse_mods_checked(&chars, false).unwrap_err(), "Invalid mod value: 1-2");
    assert_eq!(parse_mods_checked(&chars, true).unwrap(), vec![1u8, 2u8]);
}

#[test]
fn timetable_of_example() {
    let (sem1, _) = get_schedule(&full_schedule());
    let sem1 = sem1.unwrap();
    let grid = path(&sem1).unwrap();
    assert_eq!(
        grid[0],
        [None, Some(0), None, Some(1), Some(2), Some(3), Some(4), Some(5)]
    );
    assert_eq!(
        grid[2],
        [None, None, None, None, None, None, None, None]
    );
    assert_eq!(
        grid[1],
        [None, None, None, Some(1), Some(2), Some(3), Some(4), Some(5)]
    );
}

#[test]
fn later_class_takes_the_slot() {
    let text = "Semester 1\n1(A)    S1    X    N    T    R1    S    E\n1(A-B)    S1    Y    N    T    R2    S    E\n";
    let classes = resolve_semester(text).unwrap();
    let grid = path(&classes).unwrap();
    assert_eq!(grid[0][0], Some(1));
    assert_eq!(grid[1][0], Some(1));
    assert_eq!(grid[3][0], None);
}

#[test]
fn bad_mod_number_is_refused() {
    let text = "Semester 1\n9(A)    S1    X    N    T    R1    S    E\n0(C)    S1    Y    N    T    R2    S    E\n";
    let classes = resolve_semester(text).unwrap();
    assert_eq!(path(&classes).unwrap_err(), "Unexpected mod value --> 9");
    let text = "Semester 1\n0(C)    S1    Y    N    T    R2    S    E\n1(A)    S1    Z    N    T    R3    S    E\n";
    let classes = resolve_semester(text).unwrap();
    assert_eq!(path(&classes).unwrap_err(), "Unexpected mod value --> 0");
}

#[test]
fn checked_fields_follow_the_answers() {
    let found = vec!["1-2(B)".to_string(), "5(A)".to_string()];
    let (d, m) = parse_field_checked(0, "1-2(B) 5(A)", true, &found).unwrap();
    assert_eq!(d, vec![Day::B, Day::A]);
    assert_eq!(m, vec![1u8, 2u8, 5u8]);
    let bare = vec!["12".to_string()];
    assert_eq!(
        parse_field_checked(0, "12", true, &bare).unwrap_err(),
        "A group without \"(\" was found in 12"
    );
    let (d, m) = parse_field_checked(3, "4(C)", false, &Vec::new()).unwrap();
    assert_eq!(d, vec![Day::C]);
    assert_eq!(m, vec![4u8]);
    assert_eq!(
        parse_field_checked(3, "4C", false, &Vec::new()).unwrap_err(),
        "There was no \"(\" token in line 3. The problematic input was 4C"
    );
}

#[test]
fn semester_errors_are_joined() {
    let ok: Result<Vec<Class>, String> = Ok(Vec::new());
    assert_eq!(schedule_error(&(ok.clone(), Ok(Vec::new()))), None);
    assert_eq!(
        schedule_error(&(Err("x".to_string()), Ok(Vec::new()))),
        Some("x".to_string())
    );
    assert_eq!(
        schedule_error(&(Ok(Vec::new()), Err("y".to_string()))),
        Some("y".to_string())
    );
    assert_eq!(
        schedule_error(&(Err("x".to_string()), Err("y".to_string()))),
        Some("Semester 1 error: x \nSemester 2 error: y".to_string())
    );
}

#[test]
fn ignored_lines_change_nothing() {
    let plain = "Semester 1\n2(A)    S1    C    N    T    R    S    E\n3(B)    X1    C    N    T    R    S    E\n";
    let noisy = "\nRC x\nSemester 1\n   \nCC y\n2(A)    S1    C    N    T    R    S    E\nRC z\n3(B)    X1    C    N    T    R    S    E\n\t\n";
    assert_eq!(resolve_semester(plain).unwrap_err(), "Unknown semester 'X1'");
    assert_eq!(resolve_semester(noisy).unwrap_err(), "Unknown semester 'X1'");
    let bad_row = "Semester 1\nRC a\n1(A)    S1\n";
    assert_eq!(
        resolve_semester(bad_row).unwrap_err(),
        "Not enough arguments provided in line 0"
    );
}

#[test]
fn joined_day_fields_join_their_days() {
    let a = parse_day("A").unwrap();
    let b = parse_day("C-D").unwrap();
    let mut both = a.clone();
    both.extend(b);
    assert_eq!(parse_day("A,C-D").unwrap(), both);
}
