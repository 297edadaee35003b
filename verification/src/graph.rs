//! Rooms of the building as graph nodes: finding them by name or id, and
//! reading back a shortest path from the predecessor links a search left.
use vstd::prelude::*;

verus! {

/// A room (or hallway point) of the map, with the predecessor that the last
/// shortest-path search recorded for it.
pub struct Node {
    pub name: String,
    pub id: usize,
    pub previous: Option<usize>,
}

/// The id of the first node called `name`.
pub open spec fn name_lookup(nodes: Seq<Node>, name: Seq<char>) -> Option<usize>
    decreases nodes.len(),
{
    if nodes.len() == 0 {
        None
    } else {
        match name_lookup(nodes.drop_last(), name) {
            Some(id) => Some(id),
            None => if nodes.last().name@ == name {
                Some(nodes.last().id)
            } else {
                None
            },
        }
    }
}

/// The position of the first node whose id is `id`.
pub open spec fn id_position(nodes: Seq<Node>, id: usize) -> Option<usize>
    decreases nodes.len(),
{
    if nodes.len() == 0 {
        None
    } else {
        match id_position(nodes.drop_last(), id) {
            Some(i) => Some(i),
            None => if nodes.last().id == id {
                Some((nodes.len() - 1) as usize)
            } else {
                None
            },
        }
    }
}

/// Finds the id of the room called `name` (the first one, if several are).
pub fn name_to_id(name: &str, nodes: &[Node]) -> (r: Option<usize>)
    ensures
        r == name_lookup(nodes@, name@),
{
    for i in 0..nodes.len()
        invariant
            name_lookup(nodes@.take(i as int), name@) is None,
    {
        assert(nodes@.take(i + 1).drop_last() =~= nodes@.take(i as int));
        if nodes[i].name == name.to_owned() {
            assert(name_lookup(nodes@.take(i + 1), name@) == Some(nodes@[i as int].id));
            proof {
                lemma_lookup_sticks(nodes@, name@, i + 1);
            }
            return Some(nodes[i].id);
        }
    }
    assert(nodes@.take(nodes@.len() as int) =~= nodes@);
    None
}

proof fn lemma_lookup_sticks(nodes: Seq<Node>, name: Seq<char>, i: int)
    requires
        0 <= i <= nodes.len(),
        name_lookup(nodes.take(i), name) is Some,
    ensures
        name_lookup(nodes, name) == name_lookup(nodes.take(i), name),
    decreases nodes.len() - i,
{
    if i < nodes.len() {
        assert(nodes.take(i + 1).drop_last() =~= nodes.take(i));
        lemma_lookup_sticks(nodes, name, i + 1);
    } else {
        assert(nodes.take(i) =~= nodes);
    }
}

proof fn lemma_position_sticks(nodes: Seq<Node>, id: usize, i: int)
    requires
        0 <= i <= nodes.len(),
        id_position(nodes.take(i), id) is Some,
    ensures
        id_position(nodes, id) == id_position(nodes.take(i), id),
    decreases nodes.len() - i,
{
    if i < nodes.len() {
        assert(nodes.take(i + 1).drop_last() =~= nodes.take(i));
        lemma_position_sticks(nodes, id, i + 1);
    } else {
        assert(nodes.take(i) =~= nodes);
    }
}

/// Finds the position in `nodes` of the node whose id is `id`.
pub fn get_index(nodes: &[Node], id: usize) -> (r: Option<usize>)
    ensures
        r == id_position(nodes@, id),
{
    for i in 0..nodes.len()
        invariant
            id_position(nodes@.take(i as int), id) is None,
    {
        assert(nodes@.take(i + 1).drop_last() =~= nodes@.take(i as int));
        if nodes[i].id == id {
            assert(nodes@.take(i + 1).last() == nodes@[i as int]);
            assert(id_position(nodes@.take(i + 1), id) == Some(i));
            proof {
                lemma_position_sticks(nodes@, id, i + 1);
            }
            return Some(i);
        }
    }
    assert(nodes@.take(nodes@.len() as int) =~= nodes@);
    None
}

/// The predecessor links of the nodes, by position.
pub open spec fn links(nodes: Seq<Node>) -> Seq<Option<usize>> {
    nodes.map_values(|n: Node| n.previous)
}

/// The path read back from `cur` along the predecessor links, with at most
/// `fuel` steps: it stops after reaching `start` (which it includes) or a
/// node without predecessor (which it leaves out). `None` when the fuel runs
/// out or a link leads outside the nodes.
pub open spec fn trail(prev: Seq<Option<usize>>, start: usize, cur: usize, fuel: nat) -> Option<
    Seq<usize>,
>
    decreases fuel,
{
    if fuel == 0 || cur >= prev.len() {
        None
    } else {
        match prev[cur as int] {
            None => Some(seq![]),
            Some(p) => if p == start {
                Some(seq![start, cur])
            } else {
                match trail(prev, start, p, (fuel - 1) as nat) {
                    Some(t) => Some(t.push(cur)),
                    None => None,
                }
            },
        }
    }
}

/// The trail does not depend on how much fuel it was given, once it is enough.
pub proof fn lemma_trail_fuel(prev: Seq<Option<usize>>, start: usize, cur: usize, f1: nat, f2: nat)
    requires
        trail(prev, start, cur, f1) is Some,
        trail(prev, start, cur, f2) is Some,
    ensures
        trail(prev, start, cur, f1) == trail(prev, start, cur, f2),
    decreases f1,
{
    if let Some(p) = prev[cur as int] {
        if p != start {
            lemma_trail_fuel(prev, start, p, (f1 - 1) as nat, (f2 - 1) as nat);
        }
    }
}

/// A path read back from the predecessor links ends at the node it was read
/// from, and each of its nodes is the recorded predecessor of the next one.
pub proof fn lemma_trail_follows_links(
    prev: Seq<Option<usize>>,
    start: usize,
    cur: usize,
    fuel: nat,
)
    requires
        trail(prev, start, cur, fuel) is Some,
    ensures
        ({
            let t = trail(prev, start, cur, fuel)->0;
            &&& t.len() > 0 ==> t.last() == cur
            &&& forall|k: int|
                0 <= k < t.len() - 1 ==> prev[#[trigger] t[k + 1] as int] == Some(t[k])
            &&& forall|k: int| 0 <= k < t.len() ==> #[trigger] t[k] < prev.len() || t[k] == start
        }),
    decreases fuel,
{
    if let Some(p) = prev[cur as int] {
        if p != start {
            lemma_trail_follows_links(prev, start, p, (fuel - 1) as nat);
            let s = trail(prev, start, p, (fuel - 1) as nat)->0;
            let t = s.push(cur);
            assert forall|k: int| 0 <= k < t.len() - 1 implies prev[#[trigger] t[k + 1] as int]
                == Some(t[k]) by {
                if k < s.len() - 1 {
                    assert(t[k + 1] == s[k + 1]);
                    assert(t[k] == s[k]);
                } else {
                    assert(t[k + 1] == cur);
                    assert(t[k] == s.last());
                    assert(s.last() == p);
                }
            }
            assert forall|k: int| 0 <= k < t.len() implies #[trigger] t[k] < prev.len() || t[k]
                == start by {
                if k < s.len() {
                    assert(t[k] == s[k]);
                }
            }
        }
    }
}

/// Reads back the path from `start_id` to `end_id` along the predecessor
/// links: empty when `end_id` has no predecessor, otherwise the nodes in
/// order, starting at `start_id` if the links lead there.
pub fn construct_path(start_id: usize, end_id: usize, nodes: &[Node]) -> (r: Vec<usize>)
    requires
        exists|f: nat| trail(links(nodes@), start_id, end_id, f) is Some,
    ensures
        forall|f: nat| #[trigger] trail(links(nodes@), start_id, end_id, f) matches Some(t) ==> r@ == t,
{
    let ghost prev = links(nodes@);
    let ghost f0: nat = choose|f: nat| trail(links(nodes@), start_id, end_id, f) is Some;
    let ghost total = trail(prev, start_id, end_id, f0)->0;
    let ghost mut fuel: nat = f0;
    let mut pushed: Vec<usize> = Vec::new();
    let mut current = end_id;
    loop
        invariant_except_break
            prev == links(nodes@),
            trail(prev, start_id, current, fuel) is Some,
            total == trail(prev, start_id, current, fuel)->0 + pushed@.reverse(),
        ensures
            total == pushed@.reverse(),
        decreases fuel,
    {
        assert(current < nodes@.len());
        match nodes[current].previous {
            None => {
                assert(prev[current as int] == nodes@[current as int].previous);
                assert(total =~= pushed@.reverse());
                break;
            },
            Some(p) => {
                assert(prev[current as int] == Some(p));
                let ghost old_pushed = pushed@;
                pushed.push(current);
                if p == start_id {
                    pushed.push(start_id);
                    assert(pushed@.reverse() =~= seq![start_id, current] + old_pushed.reverse());
                    break;
                }
                proof {
                    let s = trail(prev, start_id, p, (fuel - 1) as nat)->0;
                    assert(pushed@.reverse() =~= seq![current] + old_pushed.reverse());
                    assert(s.push(current) + old_pushed.reverse() =~= s + pushed@.reverse());
                    fuel = (fuel - 1) as nat;
                }
                current = p;
            },
        }
    }
    let mut path: Vec<usize> = Vec::new();
    let n = pushed.len();
    for k in 0..n
        invariant
            n == pushed@.len(),
            path@ == pushed@.reverse().take(k as int),
    {
        path.push(pushed[n - 1 - k]);
        assert(path@ =~= pushed@.reverse().take(k + 1));
    }
    assert(path@ =~= pushed@.reverse());
    proof {
        assert forall|f: nat| #[trigger] trail(links(nodes@), start_id, end_id, f) is Some implies path@
            == trail(links(nodes@), start_id, end_id, f)->0 by {
            lemma_trail_fuel(prev, start_id, end_id, f, f0);
        }
    }
    path
}

/// Whether reading back from `end_id` ends within `fuel` steps without
/// leaving the nodes, i.e. whether `construct_path` may be called with that
/// much fuel known to suffice.
pub fn path_ends_within(start_id: usize, end_id: usize, nodes: &[Node], fuel: usize) -> (r: bool)
    ensures
        r == trail(links(nodes@), start_id, end_id, fuel as nat) is Some,
{
    let ghost prev = links(nodes@);
    let mut current = end_id;
    let mut f = fuel;
    loop
        invariant
            prev == links(nodes@),
            (trail(prev, start_id, end_id, fuel as nat) is Some) == (trail(
                prev,
                start_id,
                current,
                f as nat,
            ) is Some),
        decreases f,
    {
        if f == 0 || current >= nodes.len() {
            return false;
        }
        assert(prev[current as int] == nodes@[current as int].previous);
        match nodes[current].previous {
            None => return true,
            Some(p) => {
                if p == start_id {
                    return true;
                }
                current = p;
                f = f - 1;
            },
        }
    }
}

/// The nodes examined while reading back from `cur` with `fuel` steps.
pub open spec fn examined(prev: Seq<Option<usize>>, start: usize, cur: usize, fuel: nat) -> Seq<usize>
    decreases fuel,
{
    if fuel == 0 || cur >= prev.len() {
        seq![]
    } else {
        match prev[cur as int] {
            None => seq![cur],
            Some(p) => if p == start {
                seq![cur]
            } else {
                seq![cur] + examined(prev, start, p, (fuel - 1) as nat)
            },
        }
    }
}

proof fn lemma_trail_more_fuel(prev: Seq<Option<usize>>, start: usize, cur: usize, f: nat, g: nat)
    requires
        trail(prev, start, cur, f) is Some,
        f <= g,
    ensures
        trail(prev, start, cur, g) is Some,
    decreases f,
{
    if let Some(p) = prev[cur as int] {
        if p != start {
            lemma_trail_more_fuel(prev, start, p, (f - 1) as nat, (g - 1) as nat);
        }
    }
}

proof fn lemma_examined_basics(prev: Seq<Option<usize>>, start: usize, cur: usize, f: nat)
    requires
        trail(prev, start, cur, f) is Some,
    ensures
        examined(prev, start, cur, f).len() >= 1,
        examined(prev, start, cur, f).len() <= f,
        examined(prev, start, cur, f)[0] == cur,
        trail(prev, start, cur, examined(prev, start, cur, f).len()) is Some,
        forall|k: int|
            0 <= k < examined(prev, start, cur, f).len() ==> #[trigger] examined(
                prev,
                start,
                cur,
                f,
            )[k] < prev.len(),
    decreases f,
{
    if let Some(p) = prev[cur as int] {
        if p != start {
            lemma_examined_basics(prev, start, p, (f - 1) as nat);
            let rest = examined(prev, start, p, (f - 1) as nat);
            let e = examined(prev, start, cur, f);
            assert(e == seq![cur] + rest);
            assert forall|k: int| 0 <= k < e.len() implies #[trigger] e[k] < prev.len() by {
                if k > 0 {
                    assert(e[k] == rest[k - 1]);
                }
            }
        }
    }
}

proof fn lemma_examined_fuel(prev: Seq<Option<usize>>, start: usize, cur: usize, f1: nat, f2: nat)
    requires
        trail(prev, start, cur, f1) is Some,
        trail(prev, start, cur, f2) is Some,
    ensures
        examined(prev, start, cur, f1) == examined(prev, start, cur, f2),
    decreases f1,
{
    if let Some(p) = prev[cur as int] {
        if p != start {
            lemma_examined_fuel(prev, start, p, (f1 - 1) as nat, (f2 - 1) as nat);
        }
    }
}

proof fn lemma_examined_suffix(prev: Seq<Option<usize>>, start: usize, cur: usize, f: nat, k: int)
    requires
        trail(prev, start, cur, f) is Some,
        0 <= k < examined(prev, start, cur, f).len(),
    ensures
        k <= f,
        trail(prev, start, examined(prev, start, cur, f)[k], (f - k) as nat) is Some,
        examined(prev, start, examined(prev, start, cur, f)[k], (f - k) as nat) == examined(
            prev,
            start,
            cur,
            f,
        ).skip(k),
    decreases k,
{
    lemma_examined_basics(prev, start, cur, f);
    let e = examined(prev, start, cur, f);
    if k == 0 {
        assert(e.skip(0) =~= e);
    } else {
        let p = prev[cur as int]->0;
        let rest = examined(prev, start, p, (f - 1) as nat);
        assert(e == seq![cur] + rest);
        assert(e[k] == rest[k - 1]);
        lemma_examined_suffix(prev, start, p, (f - 1) as nat, k - 1);
        assert(rest.skip(k - 1) =~= e.skip(k));
    }
}

proof fn lemma_examined_distinct(prev: Seq<Option<usize>>, start: usize, cur: usize, f: nat)
    requires
        trail(prev, start, cur, f) is Some,
    ensures
        examined(prev, start, cur, f).no_duplicates(),
    decreases f,
{
    if let Some(p) = prev[cur as int] {
        if p != start {
            let g = (f - 1) as nat;
            lemma_examined_distinct(prev, start, p, g);
            let rest = examined(prev, start, p, g);
            let e = examined(prev, start, cur, f);
            assert(e == seq![cur] + rest);
            assert forall|i: int, j: int| 0 <= i < e.len() && 0 <= j < e.len() && i != j implies e[i]
                != e[j] by {
                if i > 0 && j > 0 {
                    assert(e[i] == rest[i - 1] && e[j] == rest[j - 1]);
                } else {
                    let k = if i == 0 {
                        j - 1
                    } else {
                        i - 1
                    };
                    if rest[k] == cur {
                        lemma_examined_suffix(prev, start, p, g, k);
                        lemma_examined_fuel(prev, start, cur, f, (g - k) as nat);
                        assert(examined(prev, start, cur, (g - k) as nat).len() == rest.len() - k);
                        assert(false);
                    }
                    if i == 0 {
                        assert(e[j] == rest[k]);
                    } else {
                        assert(e[i] == rest[k]);
                    }
                }
            }
        }
    }
}

/// Reading back along predecessor links ends, if it ends at all, within as
/// many steps as there are nodes.
pub proof fn lemma_trail_within_node_count(prev: Seq<Option<usize>>, start: usize, cur: usize, f: nat)
    requires
        trail(prev, start, cur, f) is Some,
    ensures
        trail(prev, start, cur, prev.len()) is Some,
{
    lemma_examined_basics(prev, start, cur, f);
    lemma_examined_distinct(prev, start, cur, f);
    let e = examined(prev, start, cur, f);
    let ints = e.map_values(|x: usize| x as int);
    assert(ints.no_duplicates()) by {
        assert forall|i: int, j: int| 0 <= i < ints.len() && 0 <= j < ints.len() && i != j implies ints[i]
            != ints[j] by {
            assert(e[i] != e[j]);
        }
    }
    ints.unique_seq_to_set();
    vstd::set_lib::lemma_int_range(0, prev.len() as int);
    assert(ints.to_set().subset_of(vstd::set_lib::set_int_range(0, prev.len() as int))) by {
        assert forall|x: int| ints.to_set().contains(x) implies vstd::set_lib::set_int_range(
            0,
            prev.len() as int,
        ).contains(x) by {
            let k = choose|k: int| 0 <= k < ints.len() && ints[k] == x;
            assert(e[k] < prev.len());
        }
    }
    vstd::set_lib::lemma_len_subset(ints.to_set(), vstd::set_lib::set_int_range(0, prev.len() as int));
    lemma_trail_more_fuel(prev, start, cur, e.len(), prev.len());
}

/// Whether `construct_path` may read back from `end_id`: the predecessor
/// links from it end without leaving the nodes.
pub fn path_ends(start_id: usize, end_id: usize, nodes: &[Node]) -> (r: bool)
    ensures
        r == exists|f: nat| trail(links(nodes@), start_id, end_id, f) is Some,
{
    let r = path_ends_within(start_id, end_id, nodes, nodes.len());
    proof {
        if exists|f: nat| trail(links(nodes@), start_id, end_id, f) is Some {
            let f = choose|f: nat| trail(links(nodes@), start_id, end_id, f) is Some;
            lemma_trail_within_node_count(links(nodes@), start_id, end_id, f);
        }
        if r {
            assert(trail(links(nodes@), start_id, end_id, nodes@.len()) is Some);
        }
    }
    r
}

} // verus!
