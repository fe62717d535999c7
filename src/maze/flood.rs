//! Flood relaxation: every iteration recomputes each field from the previous
//! grid alone, so the fields of one iteration can be computed in parallel.
use super::{
    better, cell_of, dir_of, empties, entry_cost, lemma_closed_same, lemma_dir_eq, lemma_dir_of,
    lemma_no_worse_refl, lemma_no_worse_trans, lemma_progress, no_worse, step_index, weight, DOWN,
    Dir, Field, LEFT, Maze, RIGHT, UP,
};
use rayon::prelude::IndexedParallelIterator;
use rayon::prelude::IntoParallelIterator;
use rayon::prelude::IntoParallelRefIterator;
use rayon::prelude::ParallelIterator;
use vstd::prelude::*;

verus! {

/// The order in which a field looks at its neighbours.
pub open spec fn dir_order(k: int) -> u8 {
    if k == 0 {
        UP
    } else if k == 1 {
        DOWN
    } else if k == 2 {
        LEFT
    } else {
        RIGHT
    }
}

/// Best of a running best `(flags, cost)` and a cost `cand` of entering
/// through `f`: no flags yet or a lower cost take the new one alone, an equal
/// cost adds `f`.
pub open spec fn merge(best: (u8, usize), f: u8, cand: Option<usize>) -> (u8, usize) {
    match cand {
        None => best,
        Some(nc) => {
            if best.0 == 0 {
                (f, nc)
            } else if best.1 == nc {
                (best.0 | f, nc)
            } else if nc < best.1 {
                (f, nc)
            } else {
                best
            }
        },
    }
}

/// Running best over the first `k` neighbours of field `i` of `s`, laid out
/// in rows of `w`.
pub open spec fn best_prefix(s: Seq<Field>, w: int, i: int, k: nat) -> (u8, usize)
    decreases k,
{
    if k == 0 {
        (0, 0)
    } else {
        let f = dir_order(k - 1);
        merge(
            best_prefix(s, w, i, (k - 1) as nat),
            f,
            entry_cost(cell_of(s, step_index(w, s.len() as int, i, f)), f),
        )
    }
}

/// The cheapest way into field `i` from its neighbours, with every side that
/// achieves it; no flags for a wall or where no neighbour is reached.
pub open spec fn candidate(s: Seq<Field>, w: int, i: int) -> (u8, usize) {
    if s[i] == Field::Wall {
        (0, 0)
    } else {
        best_prefix(s, w, i, 4)
    }
}

/// New value of field `i` after one iteration, and its cost where it got
/// strictly better.
pub open spec fn next_cell(s: Seq<Field>, w: int, i: int) -> (Field, Option<usize>) {
    let (ud, uc) = candidate(s, w, i);
    let cur = s[i];
    if ud == 0 {
        (cur, None)
    } else {
        match cur {
            Field::Calculated(pd, pc) => {
                if uc == pc {
                    if pd.bits() & ud != ud {
                        (Field::Calculated(dir_of(ud | pd.bits()), uc), Some(uc))
                    } else {
                        (cur, None)
                    }
                } else if uc < pc {
                    (Field::Calculated(dir_of(ud), uc), Some(uc))
                } else {
                    (cur, None)
                }
            },
            Field::Empty => (Field::Calculated(dir_of(ud), uc), Some(uc)),
            Field::Wall => (cur, None),
        }
    }
}

/// Every field of `s` after one iteration.
pub open spec fn stepped(s: Seq<Field>, w: int) -> Seq<Field> {
    Seq::new(s.len(), |i: int| next_cell(s, w, i).0)
}

/// For every field of `s`, its cost after one iteration where it got
/// strictly better.
pub open spec fn stepped_changes(s: Seq<Field>, w: int) -> Seq<Option<usize>> {
    Seq::new(s.len(), |i: int| next_cell(s, w, i).1)
}

/// Fields and changes after `n` iterations from `s`. Before the first one
/// every field counts as changed at cost 0.
pub open spec fn flood_state(s: Seq<Field>, w: int, n: nat) -> (Seq<Field>, Seq<Option<usize>>)
    decreases n,
{
    if n == 0 {
        (s, Seq::new(s.len(), |i: int| Some(0usize)))
    } else {
        let p = flood_state(s, w, (n - 1) as nat).0;
        (stepped(p, w), stepped_changes(p, w))
    }
}

/// The stop test: no field changed, or the least changed cost is at least
/// the cost of the exit field `exit`.
pub open spec fn stops(exit: Field, changes: Seq<Option<usize>>) -> bool {
    match (least_change(changes), exit) {
        (None, _) => true,
        (Some(b), Field::Calculated(_, c)) => b >= c,
        _ => false,
    }
}

/// The stop test holds after `n` iterations from `s`, for the exit at index
/// `e`.
pub open spec fn stops_after(s: Seq<Field>, w: int, e: int, n: nat) -> bool {
    stops(cell_of(flood_state(s, w, n).0, e), flood_state(s, w, n).1)
}

/// Least cost among the fields that changed.
pub open spec fn least_change(s: Seq<Option<usize>>) -> Option<usize>
    decreases s.len(),
{
    if s.len() == 0 {
        None
    } else {
        let rest = least_change(s.drop_last());
        match (rest, s.last()) {
            (None, x) => x,
            (Some(a), None) => Some(a),
            (Some(a), Some(b)) => Some(if b < a { b } else { a }),
        }
    }
}

proof fn lemma_least_change(s: Seq<Option<usize>>)
    ensures
        least_change(s) is None <==> forall|i: int| 0 <= i < s.len() ==> #[trigger] s[i] is None,
    decreases s.len(),
{
    if s.len() > 0 {
        let s0 = s.drop_last();
        lemma_least_change(s0);
        if least_change(s) is None {
            assert forall|i: int| 0 <= i < s.len() implies #[trigger] s[i] is None by {
                if i < s0.len() {
                    assert(s0[i] == s[i]);
                }
            }
        } else {
            if forall|i: int| 0 <= i < s.len() ==> #[trigger] s[i] is None {
                assert forall|i: int| 0 <= i < s0.len() implies #[trigger] s0[i] is None by {
                    assert(s0[i] == s[i]);
                }
                assert(s[s.len() - 1] is None);
            }
        }
    }
}

/// The running best, after the neighbour on side `f` offered `t`, is at most
/// `t`, and holds `f` where it equals `t`.
proof fn lemma_merge_keeps(best: (u8, usize), g: u8, cand: Option<usize>, f: u8, t: usize)
    requires
        best.0 != 0,
        best.1 <= t,
        best.1 == t ==> best.0 & f == f,
        g != 0,
    ensures
        merge(best, g, cand).0 != 0,
        merge(best, g, cand).1 <= t,
        merge(best, g, cand).1 == t ==> merge(best, g, cand).0 & f == f,
{
    let (b, x) = (best.0, g);
    assert(b != 0 ==> b | x != 0) by (bit_vector);
    assert(b & f == f ==> (b | x) & f == f) by (bit_vector);
}

proof fn lemma_best_prefix(m: Maze, i: int, k: nat, j: nat)
    requires
        j < k <= 4,
    ensures
        entry_cost(m.at(m.neighbor(i, dir_order(j as int))), dir_order(j as int)) matches Some(t)
            ==> ({
            let b = best_prefix(m.cells(), m.width() as int, i, k);
            b.0 != 0 && b.1 <= t && (b.1 == t ==> b.0 & dir_order(j as int) == dir_order(
                j as int,
            ))
        }),
    decreases k,
{
    let f = dir_order(j as int);
    if let Some(t) = entry_cost(m.at(m.neighbor(i, f)), f) {
        if j + 1 == k {
            let b = best_prefix(m.cells(), m.width() as int, i, j);
            let x = f;
            assert(x == 1 || x == 2 || x == 4 || x == 8);
            assert((x == 1 || x == 2 || x == 4 || x == 8) ==> x & x == x) by (bit_vector);
            let bb = b.0;
            assert(bb | x != 0 && (bb | x) & x == x) by (bit_vector)
                requires x == 1 || x == 2 || x == 4 || x == 8;
        } else {
            lemma_best_prefix(m, i, (k - 1) as nat, j);
            let g = dir_order(k - 1);
            assert(g != 0);
            lemma_merge_keeps(
                best_prefix(m.cells(), m.width() as int, i, (k - 1) as nat),
                g,
                entry_cost(m.at(m.neighbor(i, g)), g),
                f,
                t,
            );
        }
    }
}

/// A field whose iteration brings no change needs no update from any side.
proof fn lemma_unchanged_settled(m: Maze, i: int, f: u8)
    requires
        m.wf(),
        0 <= i < m.cells().len(),
        super::is_flag(f),
        m.cells()[i] != Field::Wall,
        next_cell(m.cells(), m.width() as int, i).1 is None,
    ensures
        super::settled(m.cells()[i], entry_cost(m.at(m.neighbor(i, f)), f), f),
{
    let j: nat = if f == UP {
        0
    } else if f == DOWN {
        1
    } else if f == LEFT {
        2
    } else {
        3
    };
    assert(dir_order(j as int) == f);
    lemma_best_prefix(m, i, 4, j);
    if let Some(t) = entry_cost(m.at(m.neighbor(i, f)), f) {
        let (ud, uc) = candidate(m.cells(), m.width() as int, i);
        if let Field::Calculated(pd, pc) = m.cells()[i] {
            let p = pd.bits();
            assert(p & ud == ud && ud & f == f ==> p & f == f) by (bit_vector);
        }
    }
}

/// An iteration in which no field changed leaves a closed grid.
proof fn lemma_quiet_closed(m: Maze)
    requires
        m.wf(),
        forall|i: int| 0 <= i < m.cells().len() ==> (#[trigger] next_cell(m.cells(), m.width() as int, i)).1 is None,
    ensures
        m.closed(),
{
    assert forall|i: int, f: u8|
        0 <= i < m.cells().len() && super::is_flag(f) && m.cells()[i] != Field::Wall
            implies super::settled(
        m.cells()[i],
        #[trigger] entry_cost(m.at(m.neighbor(i, f)), f),
        f,
    ) by {
        assert(next_cell(m.cells(), m.width() as int, i).1 is None);
        lemma_unchanged_settled(m, i, f);
    }
}

/// One iteration never makes a field worse, and reports a cost exactly for
/// the fields that got strictly better; a closed grid stays as it is.
proof fn lemma_next_cell(m: Maze, i: int)
    requires
        m.wf(),
        0 <= i < m.cells().len(),
    ensures
        no_worse(next_cell(m.cells(), m.width() as int, i).0, m.cells()[i]),
        next_cell(m.cells(), m.width() as int, i).1 is Some <==> better(next_cell(m.cells(), m.width() as int, i).0, m.cells()[i]),
        next_cell(m.cells(), m.width() as int, i).1 is None ==> next_cell(m.cells(), m.width() as int, i).0 == m.cells()[i],
        m.closed() ==> next_cell(m.cells(), m.width() as int, i).1 is None,
{
    let (ud, uc) = candidate(m.cells(), m.width() as int, i);
    lemma_no_worse_refl(m.cells()[i]);
    if let Field::Calculated(pd, pc) = m.cells()[i] {
        let p = pd.bits();
        lemma_dir_of(ud | p);
        assert((ud | p) & p == p) by (bit_vector);
        assert(p & ud != ud ==> (ud | p) != p) by (bit_vector);
    }
    if m.closed() && ud != 0 && m.cells()[i] != Field::Wall {
        lemma_closed_prefix(m, i, 4);
    }
}

/// In a closed grid the running best into a field is no better than the
/// field.
proof fn lemma_closed_prefix(m: Maze, i: int, k: nat)
    requires
        m.wf(),
        0 <= i < m.cells().len(),
        m.closed(),
        m.cells()[i] != Field::Wall,
        k <= 4,
    ensures
        best_prefix(m.cells(), m.width() as int, i, k).0 != 0 ==> match m.cells()[i] {
            Field::Calculated(pd, pc) => best_prefix(m.cells(), m.width() as int, i, k).1 > pc || (best_prefix(m.cells(), m.width() as int, i, k).1
                == pc && pd.bits() & best_prefix(m.cells(), m.width() as int, i, k).0 == best_prefix(m.cells(), m.width() as int, i, k).0),
            _ => false,
        },
    decreases k,
{
    if k > 0 {
        lemma_closed_prefix(m, i, (k - 1) as nat);
        let f = dir_order(k - 1);
        assert(super::is_flag(f));
        assert(super::settled(m.cells()[i], entry_cost(m.at(m.neighbor(i, f)), f), f));
        let b = best_prefix(m.cells(), m.width() as int, i, (k - 1) as nat);
        if let Field::Calculated(pd, pc) = m.cells()[i] {
            let (p, bb) = (pd.bits(), b.0);
            assert(p & bb == bb && p & f == f ==> p & (bb | f) == (bb | f)) by (bit_vector);
        }
    }
}

/// Relies on rayon's `ParallelIterator::min` on the values present in
/// `updates`, taken by `flatten`: None where there is none, else the least.
#[verifier::external_body]
fn par_least_change(updates: &Vec<Option<usize>>) -> (r: Option<usize>)
    ensures
        r == least_change(updates@),
{
    updates.par_iter().copied().flatten().min()
}

/// Relies on rayon's `IndexedParallelIterator::unzip_into_vecs` over a
/// range mapped by `next_field`: both vectors are cleared, then receive the
/// two parts of each item in index order.
#[verifier::external_body]
fn par_iteration(input: &Maze, output: &mut Vec<Field>, updates: &mut Vec<Option<usize>>)
    requires
        input.wf(),
    ensures
        final(output)@.len() == input.cells().len(),
        final(updates)@.len() == input.cells().len(),
        forall|i: int|
            0 <= i < input.cells().len() ==> (final(output)@[i], final(updates)@[i]) == next_cell(input.cells(), input.width() as int, i),
{
    (0..input.maze.len()).into_par_iter().map(|idx| next_field(input, idx)).unzip_into_vecs(
        output,
        updates,
    )
}

/// One iteration: `output` receives every field of `input` recomputed from
/// its neighbours in `input`, and `updates` the new cost of each field that
/// got strictly better, None for the others. No field gets worse, so no
/// reached field's cost ever rises.
pub fn iteration(input: &Maze, output: &mut Vec<Field>, updates: &mut Vec<Option<usize>>)
    requires
        input.wf(),
    ensures
        final(output)@.len() == input.cells().len(),
        final(updates)@.len() == input.cells().len(),
        forall|i: int|
            0 <= i < input.cells().len() ==> no_worse(
                #[trigger] final(output)@[i],
                input.cells()[i],
            ),
        forall|i: int|
            0 <= i < input.cells().len() ==> (#[trigger] final(updates)@[i] is Some <==> better(
                final(output)@[i],
                input.cells()[i],
            )),
        forall|i: int|
            0 <= i < input.cells().len() && #[trigger] final(updates)@[i] is None
                ==> final(output)@[i] == input.cells()[i],
        input.closed() ==> final(output)@ == input.cells(),
        (forall|i: int| 0 <= i < input.cells().len() ==> #[trigger] final(updates)@[i] is None)
            ==> input.closed(),
        final(output)@ == stepped(input.cells(), input.width() as int),
        final(updates)@ == stepped_changes(input.cells(), input.width() as int),
{
    par_iteration(input, output, updates);
    proof {
        assert(output@ =~= stepped(input.cells(), input.width() as int));
        assert(updates@ =~= stepped_changes(input.cells(), input.width() as int));
        if forall|i: int| 0 <= i < input.cells().len() ==> #[trigger] updates@[i] is None {
            assert forall|i: int| 0 <= i < input.cells().len() implies (#[trigger] next_cell(input.cells(), input.width() as int, i)).1 is None by {
                assert(updates@[i] is None);
            }
            lemma_quiet_closed(*input);
        }
        assert forall|i: int| 0 <= i < input.cells().len() implies no_worse(
            #[trigger] output@[i],
            input.cells()[i],
        ) && (updates@[i] is Some <==> better(output@[i], input.cells()[i])) && (updates@[i] is None
            ==> output@[i] == input.cells()[i]) && (input.closed() ==> output@[i]
            == input.cells()[i]) by {
            lemma_next_cell(*input, i);
        }
        if input.closed() {
            assert(output@ =~= input.cells());
        }
    }
}

/// Cheapest way into field `idx` from its neighbours in `input`, with every
/// side that achieves it; no flags for a wall or where no neighbour is
/// reached.
fn update_field(input: &Maze, idx: usize) -> (r: (Dir, usize))
    requires
        input.wf(),
        idx < input.cells().len(),
    ensures
        (r.0.bits(), r.1) == candidate(input.cells(), input.width() as int, idx as int),
{
    if let Field::Wall = input.maze[idx] {
        return (Dir(0), 0);
    }
    let dirs: [u8; 4] = [UP, DOWN, LEFT, RIGHT];
    let mut best_d: u8 = 0;
    let mut best_c: usize = 0;
    let mut k: usize = 0;
    while k < 4
        invariant
            input.wf(),
            idx < input.cells().len(),
            k <= 4,
            dirs@ == seq![UP, DOWN, LEFT, RIGHT],
            (best_d, best_c) == best_prefix(input.cells(), input.width() as int, idx as int, k as nat),
        decreases 4 - k,
    {
        let f = dirs[k];
        let updated: Option<usize> = match input.in_dir(idx, Dir(f)) {
            Field::Calculated(pdir, cost) => {
                if pdir.has_all(Dir(f)) {
                    Some(cost)
                } else {
                    cost.checked_add(1)
                }
            },
            _ => None,
        };
        match updated {
            None => {},
            Some(ncost) => {
                if best_d == 0 {
                    best_d = f;
                    best_c = ncost;
                } else if best_c == ncost {
                    best_d = best_d | f;
                } else if ncost < best_c {
                    best_d = f;
                    best_c = ncost;
                }
            },
        }
        k = k + 1;
    }
    (Dir(best_d), best_c)
}

/// New value of field `idx` after one iteration over `input`, and its cost
/// where it got strictly better.
fn next_field(input: &Maze, idx: usize) -> (r: (Field, Option<usize>))
    requires
        input.wf(),
        idx < input.cells().len(),
    ensures
        r == next_cell(input.cells(), input.width() as int, idx as int),
{
    let (udir, ucost) = update_field(input, idx);
    let cur = input.maze[idx];
    proof {
        lemma_dir_of(udir.bits());
        lemma_dir_eq(udir, dir_of(udir.bits()));
    }
    if udir.0 == 0 {
        return (cur, None);
    }
    match cur {
        Field::Calculated(pdir, pcost) => {
            if ucost == pcost {
                if !pdir.has_all(udir) {
                    let u = udir.union(pdir);
                    proof {
                        lemma_dir_of(udir.bits() | pdir.bits());
                        lemma_dir_eq(u, dir_of(udir.bits() | pdir.bits()));
                    }
                    (Field::Calculated(u, ucost), Some(ucost))
                } else {
                    (cur, None)
                }
            } else if ucost < pcost {
                (Field::Calculated(udir, ucost), Some(ucost))
            } else {
                (cur, None)
            }
        },
        Field::Empty => (Field::Calculated(udir, ucost), Some(ucost)),
        Field::Wall => (cur, None),
    }
}

/// The search is over when no field changed in the last iteration, or when
/// no field that changed got below the cost already found for the exit.
fn is_done(exit: Field, updates: &Vec<Option<usize>>) -> (r: bool)
    ensures
        r == stops(exit, updates@),
{
    let best = par_least_change(updates);
    match (best, exit) {
        (None, _) => true,
        (Some(b), Field::Calculated(_, c)) => b >= c,
        _ => false,
    }
}

/// Flood search from the reached fields of `maze` towards the exit at column
/// `x`, row `y`. Every iteration relaxes all fields at once from the previous
/// grid; the search stops when nothing changes any more, or when nothing that
/// changed got below the exit's cost.
///
/// The result is the grid after the first iteration at which the stop test
/// holds. It has the shape and the walls of `maze`; no field is worse than
/// before; either the exit is reached or the grid is closed, so that an exit
/// left open is unreachable; and a closed grid comes back unchanged.
pub fn flood(maze: Maze, x: usize, y: usize) -> (r: Maze)
    requires
        maze.wf(),
    ensures
        r.wf(),
        r.width() == maze.width(),
        r.cells().len() == maze.cells().len(),
        forall|i: int|
            0 <= i < maze.cells().len() ==> no_worse(#[trigger] r.cells()[i], maze.cells()[i]),
        r.field_at(x as int, y as int) is Calculated || r.closed(),
        maze.closed() ==> r.cells() == maze.cells(),
        exists|n: nat|
            {
                &&& r.cells() == flood_state(maze.cells(), maze.width() as int, n).0
                &&& stops_after(
                    maze.cells(),
                    maze.width() as int,
                    maze.index_of(x as int, y as int),
                    n,
                )
                &&& forall|j: nat|
                    j < n ==> !#[trigger] stops_after(
                        maze.cells(),
                        maze.width() as int,
                        maze.index_of(x as int, y as int),
                        j,
                    )
            },
{
    let len = maze.maze.len();
    let mut maze = maze;
    let ghost start = maze;
    let mut backbuffer: Vec<Field> = Vec::new();
    let mut updates: Vec<Option<usize>> = Vec::new();
    let mut k: usize = 0;
    while k < len
        invariant
            k <= len,
            updates@.len() == k,
            forall|i: int| 0 <= i < k ==> #[trigger] updates@[i] == Some(0usize),
        decreases len - k,
    {
        updates.push(Some(0));
        k = k + 1;
    }
    let ghost w = start.width() as int;
    let ghost e = start.index_of(x as int, y as int);
    let ghost mut n: nat = 0;
    proof {
        assert forall|i: int| 0 <= i < len implies no_worse(
            #[trigger] maze.cells()[i],
            start.cells()[i],
        ) by {
            lemma_no_worse_refl(maze.cells()[i]);
        }
        assert(updates@ =~= flood_state(start.cells(), w, 0).1);
        lemma_least_change(updates@);
        if len > 0 {
            assert(updates@[0] == Some(0usize));
        }
    }
    while !is_done(maze.field(x, y), &updates)
        invariant
            maze.wf(),
            maze.width() == start.width(),
            maze.cells().len() == start.cells().len(),
            updates@.len() == len,
            len == start.cells().len(),
            forall|i: int|
                0 <= i < len ==> no_worse(#[trigger] maze.cells()[i], start.cells()[i]),
            least_change(updates@) is None ==> maze.closed(),
            start.closed() ==> maze.cells() == start.cells(),
            maze.cells() == flood_state(start.cells(), w, n).0,
            updates@ == flood_state(start.cells(), w, n).1,
            e == maze.index_of(x as int, y as int),
            w == start.width(),
            forall|j: nat| j < n ==> !#[trigger] stops_after(start.cells(), w, e, j),
        decreases empties(maze.cells()), weight(maze.cells()), if least_change(updates@) is Some {
            1int
        } else {
            0int
        },
    {
        let ghost prev = maze;
        proof {
            assert(!stops_after(start.cells(), w, e, n));
        }
        iteration(&maze, &mut backbuffer, &mut updates);
        std::mem::swap(&mut maze.maze, &mut backbuffer);
        proof {
            n = n + 1;
            assert forall|j: nat| j < n implies !#[trigger] stops_after(start.cells(), w, e, j) by {
                if j < n - 1 {
                    assert(!stops_after(start.cells(), w, e, j));
                }
            }
            assert forall|i: int| 0 <= i < len implies no_worse(
                #[trigger] maze.cells()[i],
                start.cells()[i],
            ) by {
                lemma_no_worse_trans(maze.cells()[i], prev.cells()[i], start.cells()[i]);
            }
            lemma_least_change(updates@);
            lemma_progress(maze.cells(), prev.cells());
            if least_change(updates@) is None {
                assert forall|i: int| 0 <= i < len implies maze.cells()[i] == prev.cells()[i] by {
                    assert(updates@[i] is None);
                }
                assert(maze.cells() =~= prev.cells());
                lemma_closed_same(prev, maze);
            } else {
                let i = choose|i: int| 0 <= i < updates@.len() && !(#[trigger] updates@[i] is None);
                assert(better(maze.cells()[i], prev.cells()[i]));
            }
            if start.closed() {
                lemma_closed_same(start, prev);
            }
        }
    }
    proof {
        assert(stops_after(start.cells(), w, e, n));
    }
    maze
}

} // verus!
