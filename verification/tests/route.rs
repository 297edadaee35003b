use hallway::class::Class;
use hallway::graph::{construct_path, get_index, name_to_id, path_ends, path_ends_within, Node};
use hallway::route::{node_find_func, try_node_find_func, DailyNode, EnterExit, Leg, LEX_NODE};
use hallway::semester::resolve_semester;
use hallway::weekly::path;

fn node(name: &str, id: usize, previous: Option<usize>) -> Node {
    Node { name: name.to_string(), id, previous }
}

fn classes(rows: &[&str]) -> Vec<Class> {
    let mut text = String::from("Semester 1\n");
    for r in rows {
        text.push_str(r);
        text.push('\n');
    }
    if rows.len() < 2 {
        text.push_str("\n\n");
    }
    resolve_semester(&text).unwrap()
}

fn ends(legs: &[Leg]) -> Vec<(usize, usize)> {
    legs.iter().map(|l| (l.from, l.to)).collect()
}

fn name_of(c: &Option<Class>) -> Option<String> {
    c.as_ref().map(|c| c.short_name.clone())
}

fn map() -> Vec<Node> {
    vec![node("a113", 10, None), node("b120", 20, None)]
}

fn four_rooms() -> Vec<Class> {
    classes(&[
        "1(A)    S1    C0    N    T    A113    S    E",
        "2(A)    S1    C1    N    T    B120    S    E",
        "5(A)    S1    C2    N    T    A113    S    E",
        "6(A)    S1    C3    N    T    B120    S    E",
    ])
}

#[test]
fn day_is_planned_door_to_door() {
    let cs = four_rooms();
    let grid = path(&cs).unwrap();
    let plan = node_find_func(&grid, &cs, &map(), &EnterExit::WestMain, &EnterExit::D6, false)
        .unwrap();
    assert_eq!(plan.days.len(), 5);
    assert_eq!(
        ends(&plan.days[0]),
        vec![(146, 10), (10, 20), (20, 10), (10, 20), (20, 147)]
    );
    let a = &plan.days[0];
    assert_eq!(name_of(&a[0].before), None);
    assert_eq!(name_of(&a[0].after), Some("C0".to_string()));
    assert_eq!(name_of(&a[3].before), Some("C2".to_string()));
    assert_eq!(name_of(&a[3].after), Some("C3".to_string()));
    assert_eq!(name_of(&a[4].before), Some("C3".to_string()));
    assert_eq!(name_of(&a[4].after), None);
    for d in 1..5 {
        assert!(plan.days[d].is_empty());
    }
}

#[test]
fn lunch_goes_through_the_hall_when_checked() {
    let cs = four_rooms();
    let grid = path(&cs).unwrap();
    let plan = node_find_func(&grid, &cs, &map(), &EnterExit::EastMain, &EnterExit::D13, true)
        .unwrap();
    assert_eq!(
        ends(&plan.days[0]),
        vec![(0, 10), (10, 20), (20, 10), (10, LEX_NODE), (LEX_NODE, 20), (20, 145)]
    );
    let a = &plan.days[0];
    assert_eq!(name_of(&a[3].before), Some("C1".to_string()));
    assert_eq!(name_of(&a[4].after), Some("C3".to_string()));
}

#[test]
fn lunch_without_a_walk_after_it_cannot_be_planned() {
    let cs = classes(&[
        "1(A)    S1    C0    N    T    A113    S    E",
        "2(A)    S1    C1    N    T    B120    S    E",
    ]);
    let grid = path(&cs).unwrap();
    assert!(try_node_find_func(&grid, &cs, &map(), &EnterExit::WestMain, &EnterExit::D6, false)
        .is_none());
}

#[test]
fn unknown_rooms_are_reported() {
    let cs = four_rooms();
    let grid = path(&cs).unwrap();
    let only_a = vec![node("a113", 10, None)];
    let r = try_node_find_func(&grid, &cs, &only_a, &EnterExit::WestMain, &EnterExit::D6, false)
        .unwrap();
    assert_eq!(r.err().unwrap(), "The room 'B120' was not recognized");
    let only_b = vec![node("b120", 20, None)];
    let r = try_node_find_func(&grid, &cs, &only_b, &EnterExit::WestMain, &EnterExit::D6, false)
        .unwrap();
    assert_eq!(r.err().unwrap(), "The room 'a113' was not recognized");
}

#[test]
fn same_room_twice_is_no_walk() {
    let cs = classes(&[
        "1(B)    S1    C0    N    T    A113    S    E",
        "2(B)    S1    C1    N    T    a113    S    E",
        "5(B)    S1    C2    N    T    B120    S    E",
        "6(B)    S1    C3    N    T    A113    S    E",
    ]);
    let grid = path(&cs).unwrap();
    let plan = node_find_func(&grid, &cs, &map(), &EnterExit::WestMain, &EnterExit::D6, false)
        .unwrap();
    assert_eq!(ends(&plan.days[1]), vec![(146, 10), (10, 20), (20, 10), (10, 147)]);
}

#[test]
fn plan_is_joined_with_paths() {
    let cs = four_rooms();
    let grid = path(&cs).unwrap();
    let plan = node_find_func(&grid, &cs, &map(), &EnterExit::WestMain, &EnterExit::D6, false)
        .unwrap();
    let paths: Vec<Vec<Vec<usize>>> = plan
        .days
        .iter()
        .map(|legs| legs.iter().map(|l| vec![l.from, l.to]).collect())
        .collect();
    let daily = DailyNode::from_plan(&plan, &paths);
    let a = daily.anode.unwrap();
    assert_eq!(a.len(), 5);
    assert_eq!(a[1].0, vec![10, 20]);
    assert_eq!(name_of(&(a[1].1).0), Some("C0".to_string()));
    assert!(daily.bnode.unwrap().is_empty());
    assert!(daily.inode.is_some() && daily.cnode.is_some() && daily.dnode.is_some());
}

#[test]
fn doors_are_named() {
    assert_eq!(EnterExit::from_name("west"), Some(EnterExit::WestMain));
    assert_eq!(EnterExit::from_name("east"), Some(EnterExit::EastMain));
    assert_eq!(EnterExit::from_name("d13"), Some(EnterExit::D13));
    assert_eq!(EnterExit::from_name("d6"), Some(EnterExit::D6));
    assert_eq!(EnterExit::from_name("West"), None);
    assert_eq!(EnterExit::from_name(""), None);
}

#[test]
fn door_nodes() {
    assert_eq!(EnterExit::WestMain.node(), 146);
    assert_eq!(EnterExit::EastMain.node(), 0);
    assert_eq!(EnterExit::D13.node(), 145);
    assert_eq!(EnterExit::D6.node(), 147);
}

#[test]
fn rooms_are_found_by_name_and_id() {
    let nodes = vec![node("x", 7, None), node("y", 3, None), node("x", 9, None)];
    assert_eq!(name_to_id("x", &nodes), Some(7));
    assert_eq!(name_to_id("y", &nodes), Some(3));
    assert_eq!(name_to_id("z", &nodes), None);
    assert_eq!(get_index(&nodes, 3), Some(1));
    assert_eq!(get_index(&nodes, 9), Some(2));
    assert_eq!(get_index(&nodes, 4), None);
}

#[test]
fn path_is_read_back_from_links() {
    let nodes = vec![
        node("s", 0, None),
        node("a", 1, Some(0)),
        node("b", 2, Some(1)),
        node("c", 3, Some(2)),
        node("lost", 4, None),
    ];
    assert_eq!(construct_path(0, 3, &nodes), vec![0, 1, 2, 3]);
    assert_eq!(construct_path(0, 1, &nodes), vec![0, 1]);
    assert_eq!(construct_path(0, 4, &nodes), Vec::<usize>::new());
    assert_eq!(construct_path(0, 0, &nodes), Vec::<usize>::new());
    // links that never reach the start stop at the node without predecessor
    assert_eq!(construct_path(9, 3, &nodes), vec![1, 2, 3]);
}

#[test]
fn looping_links_do_not_end() {
    let nodes = vec![node("a", 0, Some(1)), node("b", 1, Some(0)), node("c", 2, Some(1))];
    assert!(!path_ends(5, 2, &nodes));
    assert!(path_ends(0, 2, &nodes));
    assert_eq!(construct_path(0, 2, &nodes), vec![0, 1, 2]);
    let out = vec![node("a", 0, Some(7))];
    assert!(!path_ends(3, 0, &out));
    assert!(path_ends(7, 0, &out));
    assert!(path_ends_within(7, 0, &out, 1));
    assert!(!path_ends_within(7, 0, &out, 0));
}
