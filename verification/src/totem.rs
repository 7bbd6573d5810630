use vstd::prelude::*;
use crate::maze::{Cell, Maze, row_major_lt};

verus! {

/// A fixed idol that has to be destroyed before the exit opens. It has no
/// mind of its own (it neither moves nor sees): it only remembers whether
/// it has been destroyed. It stands at the centre of its cell.
#[derive(Clone, Copy)]
pub struct Totem {
    pub cell: Cell,
    pub destroyed: bool,
}

/// How many totems of `s` are still standing.
pub open spec fn standing(s: Seq<Totem>) -> nat
    decreases s.len(),
{
    if s.len() == 0 {
        0
    } else {
        standing(s.drop_last()) + if s.last().destroyed {
            0nat
        } else {
            1nat
        }
    }
}

/// Whether totem `i` is still standing and within reach: its distance to
/// the player, `distances[i]`, is under `reach`. A totem with no distance
/// given is out of reach.
pub open spec fn can_interact(totems: Seq<Totem>, distances: Seq<u32>, reach: u32, i: int) -> bool {
    0 <= i < totems.len() && i < distances.len() && !totems[i].destroyed && distances[i] < reach
}

/// Totem `i` can be interacted with and no other such totem is nearer;
/// among equally near ones, it comes first in the list.
pub open spec fn is_nearest_interactable(totems: Seq<Totem>, distances: Seq<u32>, reach: u32, i: int) -> bool {
    &&& can_interact(totems, distances, reach, i)
    &&& forall|j: int| #[trigger] can_interact(totems, distances, reach, j) ==> distances[i] < distances[j]
        || (distances[i] == distances[j] && i <= j)
}

impl Totem {
    /// A standing totem on `cell`.
    pub fn new(cell: Cell) -> (t: Self)
        ensures
            t.cell == cell,
            !t.destroyed,
    {
        Totem { cell, destroyed: false }
    }

    pub fn is_destroyed(&self) -> (b: bool)
        ensures
            b == self.destroyed,
    {
        self.destroyed
    }
}

/// Plants a standing totem on every cell of the maze marked `marker`, in
/// reading order.
pub fn spawn_from_maze(maze: &Maze, marker: char) -> (totems: Vec<Totem>)
    ensures
        forall|i: int| 0 <= i < totems@.len() ==> !(#[trigger] totems@[i]).destroyed,
        forall|i: int| 0 <= i < totems@.len() ==> maze.holds((#[trigger] totems@[i]).cell, marker),
        forall|c: Cell| maze.holds(c, marker) ==> exists|i: int| 0 <= i < totems@.len() && (#[trigger] totems@[i]).cell == c,
        forall|i: int, j: int| 0 <= i < j < totems@.len() ==> row_major_lt((#[trigger] totems@[i]).cell, (#[trigger] totems@[j]).cell),
{
    let cells = maze.find_all(marker);
    let mut totems: Vec<Totem> = Vec::new();
    let mut i: usize = 0;
    while i < cells.len()
        invariant
            i <= cells@.len(),
            totems@.len() == i,
            forall|k: int| 0 <= k < i ==> !(#[trigger] totems@[k]).destroyed && totems@[k].cell == cells@[k],
        decreases cells@.len() - i,
    {
        totems.push(Totem::new(cells[i]));
        i = i + 1;
    }
    proof {
        assert forall|c: Cell| maze.holds(c, marker) implies exists|i: int| 0 <= i < totems@.len() && (#[trigger] totems@[i]).cell == c by {
            assert(cells@.contains(c));
            let k = choose|k: int| 0 <= k < cells@.len() && cells@[k] == c;
            assert(totems@[k].cell == c);
        }
        assert forall|a: int, b: int| 0 <= a < b < totems@.len() implies row_major_lt((#[trigger] totems@[a]).cell, (#[trigger] totems@[b]).cell) by {
            assert(row_major_lt(cells@[a], cells@[b]));
        }
        assert forall|a: int| 0 <= a < totems@.len() implies maze.holds((#[trigger] totems@[a]).cell, marker) by {
            assert(cells@.contains(cells@[a]));
        }
    }
    totems
}

/// Index of the nearest standing totem, if the player is close enough to
/// some standing totem to destroy it. `distances[i]` is how far the player
/// is from totem `i` and `reach` how close it takes; any measure that orders
/// as the distance does will do. It does not destroy the totem: it only
/// tells that it can be done, so that the caller decides on the input (and
/// can show a hint without a key press).
pub fn interactable(totems: &Vec<Totem>, distances: &Vec<u32>, reach: u32) -> (r: Option<usize>)
    ensures
        r is None <==> forall|i: int| !can_interact(totems@, distances@, reach, i),
        r matches Some(i) ==> is_nearest_interactable(totems@, distances@, reach, i as int),
        r matches Some(i) ==> forall|j: int| 0 <= j < totems@.len() && j < distances@.len() && !(#[trigger] totems@[j]).destroyed
            ==> distances@[i as int] <= distances@[j],
        r matches Some(i) ==> i < totems@.len() && i < distances@.len() && !totems@[i as int].destroyed
            && distances@[i as int] < reach,
        r is None ==> forall|j: int| 0 <= j < totems@.len() && j < distances@.len() ==> (#[trigger] totems@[j]).destroyed
            || distances@[j] >= reach,
{
    let mut best: Option<usize> = None;
    let mut i: usize = 0;
    while i < totems.len()
        invariant
            i <= totems@.len(),
            best is None <==> forall|j: int| 0 <= j < i ==> !can_interact(totems@, distances@, reach, j),
            best matches Some(b) ==> b < i && can_interact(totems@, distances@, reach, b as int)
                && forall|j: int| 0 <= j < i && #[trigger] can_interact(totems@, distances@, reach, j)
                    ==> distances@[b as int] < distances@[j] || (distances@[b as int] == distances@[j] && b <= j),
        decreases totems@.len() - i,
    {
        let in_reach = i < distances.len() && !totems[i].destroyed && distances[i] < reach;
        proof {
            assert(in_reach == can_interact(totems@, distances@, reach, i as int));
        }
        if in_reach {
            match best {
                None => {
                    best = Some(i);
                },
                Some(b) => {
                    if distances[i] < distances[b] {
                        best = Some(i);
                    }
                },
            }
        }
        i = i + 1;
    }
    proof {
        if best is None {
            assert forall|j: int| 0 <= j < totems@.len() && j < distances@.len() implies (#[trigger] totems@[j]).destroyed
                || distances@[j] >= reach by {
                assert(!can_interact(totems@, distances@, reach, j));
            }
        }
        if let Some(b) = best {
            assert forall|j: int| 0 <= j < totems@.len() && j < distances@.len() && !(#[trigger] totems@[j]).destroyed
                implies distances@[b as int] <= distances@[j] by {
                if distances@[j] < reach {
                    assert(can_interact(totems@, distances@, reach, j));
                }
            }
        }
    }
    best
}

/// Destroys the totem at `index`, if there is one.
pub fn destroy(totems: &mut Vec<Totem>, index: usize)
    ensures
        final(totems)@.len() == old(totems)@.len(),
        index < old(totems)@.len() ==> final(totems)@[index as int].destroyed && final(totems)@[index as int].cell == old(totems)@[index as int].cell,
        forall|i: int| 0 <= i < old(totems)@.len() && i != index ==> #[trigger] final(totems)@[i] == old(totems)@[i],
{
    if index < totems.len() {
        let mut t = totems[index];
        t.destroyed = true;
        totems.set(index, t);
    }
}

/// How many totems are still standing.
pub fn remaining(totems: &Vec<Totem>) -> (n: usize)
    ensures
        n == standing(totems@),
{
    let mut n: usize = 0;
    let mut i: usize = 0;
    while i < totems.len()
        invariant
            i <= totems@.len(),
            n == standing(totems@.take(i as int)),
            n <= i,
        decreases totems@.len() - i,
    {
        proof {
            assert(totems@.take(i + 1).drop_last() =~= totems@.take(i as int));
        }
        if !totems[i].destroyed {
            n = n + 1;
        }
        i = i + 1;
    }
    proof {
        assert(totems@.take(i as int) =~= totems@);
    }
    n
}

/// Whether every totem has been destroyed (the exit is open).
pub fn all_destroyed(totems: &Vec<Totem>) -> (b: bool)
    ensures
        b == (standing(totems@) == 0),
        b <==> forall|i: int| 0 <= i < totems@.len() ==> (#[trigger] totems@[i]).destroyed,
{
    proof {
        lemma_standing_zero(totems@);
    }
    remaining(totems) == 0
}

/// No totem stands exactly when all have been destroyed.
pub proof fn lemma_standing_zero(s: Seq<Totem>)
    ensures
        standing(s) == 0 <==> forall|i: int| 0 <= i < s.len() ==> (#[trigger] s[i]).destroyed,
    decreases s.len(),
{
    if s.len() > 0 {
        lemma_standing_zero(s.drop_last());
        if standing(s) == 0 {
            assert forall|i: int| 0 <= i < s.len() implies (#[trigger] s[i]).destroyed by {
                if i < s.len() - 1 {
                    assert(s[i] == s.drop_last()[i]);
                }
            }
        }
        if forall|i: int| 0 <= i < s.len() ==> (#[trigger] s[i]).destroyed {
            assert forall|i: int| 0 <= i < s.drop_last().len() implies (#[trigger] s.drop_last()[i]).destroyed by {
                assert(s[i] == s.drop_last()[i]);
            }
        }
    }
}

/// Destroying a standing totem leaves exactly one fewer standing;
/// destroying a destroyed one (or a missing index) changes nothing.
pub proof fn lemma_destroy_counts(before: Seq<Totem>, after: Seq<Totem>, index: int)
    requires
        after.len() == before.len(),
        0 <= index < before.len() ==> after[index].destroyed,
        forall|i: int| 0 <= i < before.len() && i != index ==> #[trigger] after[i] == before[i],
    ensures
        0 <= index < before.len() && !before[index].destroyed ==> standing(after) + 1 == standing(before),
        !(0 <= index < before.len() && !before[index].destroyed) ==> standing(after) == standing(before),
    decreases before.len(),
{
    if before.len() > 0 {
        let n = before.len() - 1;
        lemma_destroy_counts(before.drop_last(), after.drop_last(), index);
        assert forall|i: int| 0 <= i < n && i != index implies #[trigger] after.drop_last()[i] == before.drop_last()[i] by {
            assert(after[i] == before[i]);
        }
        if index != n {
            assert(after[n] == before[n]);
        }
    }
}

/// Never more totems stand than there are.
pub proof fn lemma_standing_bound(s: Seq<Totem>)
    ensures
        standing(s) <= s.len(),
    decreases s.len(),
{
    if s.len() > 0 {
        lemma_standing_bound(s.drop_last());
    }
}

} // verus!
