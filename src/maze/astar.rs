//! Best-first search: fields are expanded in the order of their cost plus a
//! lower bound on the turns still needed to face the exit.
use super::{
    axis_flag, better, cell_of, dir_of, empties, entry_cost, is_flag, lemma_closed_same,
    lemma_dir_eq, lemma_dir_of, lemma_no_worse_refl, lemma_no_worse_trans, lemma_progress,
    min_rotation_of, no_worse, settled, step_index, weight, DOWN, Dir, Field, LEFT, Maze, RIGHT,
    UP,
};
use vstd::prelude::*;
use vstd::multiset::Multiset;
use vstd::seq_lib::group_to_multiset_ensures;

verus! {

/// The flag of the side facing `f`.
pub open spec fn opposite(f: u8) -> u8 {
    if f == LEFT {
        RIGHT
    } else if f == RIGHT {
        LEFT
    } else if f == UP {
        DOWN
    } else {
        UP
    }
}

/// The neighbour of field `i` in direction `to`, entered through its side
/// `opposite(to)`, needs no update from `i`.
pub open spec fn settled_towards(m: Maze, i: int, to: u8) -> bool {
    let j = m.neighbor(i, to);
    let from = opposite(to);
    j < 0 || m.cells()[j] == Field::Wall || settled(m.cells()[j], entry_cost(m.cells()[i], from), from)
}

/// No neighbour of field `i` needs an update from it.
pub open spec fn settled_out(m: Maze, i: int) -> bool {
    &&& settled_towards(m, i, LEFT)
    &&& settled_towards(m, i, RIGHT)
    &&& settled_towards(m, i, UP)
    &&& settled_towards(m, i, DOWN)
}

/// Some entry of the queue names field `i`.
pub open spec fn queued(q: Seq<(usize, usize)>, i: int) -> bool {
    exists|n: int| 0 <= n < q.len() && #[trigger] q[n].1 == i
}

/// `a` leaves the queue before `b`: lower priority first, then lower index.
pub open spec fn item_le(a: (usize, usize), b: (usize, usize)) -> bool {
    a.0 < b.0 || (a.0 == b.0 && a.1 <= b.1)
}

/// Priority of a field reached with cost `c` through `d`, at column `x`, row
/// `y`, for an exit at `exit`: the cost plus the heuristic, capped at the
/// largest `usize`.
pub open spec fn priority(d: Dir, c: usize, x: usize, y: usize, exit: (usize, usize)) -> usize {
    let h = min_rotation_of(d.bits(), axis_flag(x, exit.0, 1, 4) | axis_flag(y, exit.1, 2, 8));
    if c + h > usize::MAX {
        usize::MAX
    } else {
        (c + h) as usize
    }
}

proof fn lemma_neighbor_back(m: Maze, i: int, to: u8)
    requires
        m.wf(),
        0 <= i < m.cells().len(),
        is_flag(to),
        m.neighbor(i, to) >= 0,
    ensures
        0 <= m.neighbor(i, to) < m.cells().len(),
        m.neighbor(i, to) != i,
        m.neighbor(m.neighbor(i, to), opposite(to)) == i,
        is_flag(opposite(to)),
{
    let w = m.width() as int;
    let len = m.cells().len() as int;
    if to == RIGHT {
        assert(i + 1 < len) by {
            if i + 1 == len {
                assert(len % w == 0);
            }
        }
    }
}

/// A field that needs no update keeps needing none when it gets better.
proof fn lemma_settled_mono(b: Field, b2: Field, t: Option<usize>, f: u8)
    requires
        settled(b, t, f),
        no_worse(b2, b),
    ensures
        settled(b2, t, f),
{
    if let (Field::Calculated(d, _), Field::Calculated(d2, _)) = (b, b2) {
        let (x, y) = (d.bits(), d2.bits());
        assert(y & x == x && x & f == f ==> y & f == f) by (bit_vector);
    }
}

/// When no reached field has a neighbour that needs an update from it, the
/// grid is closed.
proof fn lemma_all_settled_closed(m: Maze)
    requires
        m.wf(),
        forall|k: int|
            0 <= k < m.cells().len() && #[trigger] m.cells()[k] is Calculated ==> settled_out(m, k),
    ensures
        m.closed(),
{
    assert forall|i: int, f: u8|
        0 <= i < m.cells().len() && is_flag(f) && m.cells()[i] != Field::Wall implies settled(
        m.cells()[i],
        #[trigger] entry_cost(m.at(m.neighbor(i, f)), f),
        f,
    ) by {
        let a = m.neighbor(i, f);
        if a >= 0 {
            lemma_neighbor_back(m, i, f);
            let to = opposite(f);
            lemma_neighbor_back(m, a, to);
            assert(opposite(to) == f);
            if m.cells()[a] is Calculated {
                assert(settled_out(m, a));
                assert(settled_towards(m, a, to));
            }
        }
    }
}

/// Queue entry for field `j` holding `f`, in rows of `w`, for the exit at
/// `exit`.
pub open spec fn queue_item(f: Field, j: int, w: int, exit: (usize, usize)) -> (usize, usize) {
    match f {
        Field::Calculated(d, c) => (priority(d, c, (j % w) as usize, (j / w) as usize, exit), j as usize),
        _ => (0, j as usize),
    }
}

/// New value of a field `next` entered through its side `from` at cost `c`;
/// None where it does not change.
pub open spec fn relaxed(next: Field, from: u8, c: usize) -> Option<Field> {
    match next {
        Field::Calculated(d, pc) => {
            if pc == c {
                if d.bits() & from == from {
                    None
                } else {
                    Some(Field::Calculated(dir_of(d.bits() | from), c))
                }
            } else if c < pc {
                Some(Field::Calculated(dir_of(from), c))
            } else {
                None
            }
        },
        Field::Empty => Some(Field::Calculated(dir_of(from), c)),
        Field::Wall => None,
    }
}

/// New value of `next` entered through its side `from` at cost `cost`; None
/// where it does not change.
fn relax_field(next: Field, from: u8, cost: usize) -> (r: Option<Field>)
    requires
        is_flag(from),
    ensures
        r == relaxed(next, from, cost),
        r matches Some(f) ==> better(f, next) && no_worse(f, next) && settled(f, Some(cost), from),
        r is None ==> next == Field::Wall || settled(next, Some(cost), from),
{
    proof {
        lemma_dir_of(from);
        lemma_dir_eq(Dir(from), dir_of(from));
        let y = from;
        assert(is_flag(y) ==> y & y == y) by (bit_vector);
    }
    match next {
        Field::Calculated(dir, pcost) => {
            if pcost == cost {
                if dir.has_all(Dir(from)) {
                    None
                } else {
                    let u = dir.union(Dir(from));
                    proof {
                        lemma_dir_of(dir.bits() | from);
                        lemma_dir_eq(u, dir_of(dir.bits() | from));
                        let (x, y) = (dir.bits(), from);
                        assert((x | y) & x == x && (x & y != y ==> (x | y) != x) && (x | y) & y
                            == y) by (bit_vector);
                    }
                    Some(Field::Calculated(u, cost))
                }
            } else if cost < pcost {
                Some(Field::Calculated(Dir(from), cost))
            } else {
                None
            }
        },
        Field::Empty => Some(Field::Calculated(Dir(from), cost)),
        Field::Wall => None,
    }
}

/// Fields of `s` and queue `q` after relaxing, from field `i`, its
/// neighbour in direction `to`. The neighbour is entered through its side
/// `from` at the cost of leaving `i` that way. An open neighbour takes that
/// cost; a reached one takes it where it is lower, or adds `from` to its
/// directions where it is equal and `from` is new. A changed neighbour is
/// queued.
pub open spec fn relax_spec(
    s: Seq<Field>,
    w: int,
    exit: (usize, usize),
    q: Multiset<(usize, usize)>,
    i: int,
    to: u8,
) -> (Seq<Field>, Multiset<(usize, usize)>) {
    let from = opposite(to);
    let j = step_index(w, s.len() as int, i, to);
    match entry_cost(s[i], from) {
        None => (s, q),
        Some(c) => {
            if j < 0 {
                (s, q)
            } else {
                match relaxed(s[j], from, c) {
                    None => (s, q),
                    Some(f) => (s.update(j, f), q.insert(queue_item(f, j, w, exit))),
                }
            }
        },
    }
}

/// Fields and queue after relaxing all four neighbours of field `i`.
pub open spec fn expand_spec(
    s: Seq<Field>,
    w: int,
    exit: (usize, usize),
    q: Multiset<(usize, usize)>,
    i: int,
) -> (Seq<Field>, Multiset<(usize, usize)>) {
    let a = relax_spec(s, w, exit, q, i, LEFT);
    let b = relax_spec(a.0, w, exit, a.1, i, RIGHT);
    let c = relax_spec(b.0, w, exit, b.1, i, UP);
    relax_spec(c.0, w, exit, c.1, i, DOWN)
}

/// The entry that leaves the queue first.
pub open spec fn queue_min(q: Multiset<(usize, usize)>) -> (usize, usize) {
    choose|x: (usize, usize)| q.contains(x) && forall|y: (usize, usize)| q.contains(y) ==> item_le(x, y)
}

/// One round of the search: the first entry leaves the queue and, where its
/// field is reached, the field is expanded.
pub open spec fn search_step(
    s: Seq<Field>,
    w: int,
    exit: (usize, usize),
    q: Multiset<(usize, usize)>,
) -> (Seq<Field>, Multiset<(usize, usize)>) {
    let it = queue_min(q);
    let q1 = q.remove(it);
    if s[it.1 as int] is Calculated {
        expand_spec(s, w, exit, q1, it.1 as int)
    } else {
        (s, q1)
    }
}

/// Fields and queue after `n` rounds.
pub open spec fn search_state(
    s: Seq<Field>,
    w: int,
    exit: (usize, usize),
    q: Multiset<(usize, usize)>,
    n: nat,
) -> (Seq<Field>, Multiset<(usize, usize)>)
    decreases n,
{
    if n == 0 {
        (s, q)
    } else {
        let p = search_state(s, w, exit, q, (n - 1) as nat);
        search_step(p.0, w, exit, p.1)
    }
}

/// The search is over after `n` rounds: the queue is empty, or a round has
/// been made and the exit, at index `e`, is reached.
pub open spec fn search_halts(
    s: Seq<Field>,
    w: int,
    exit: (usize, usize),
    q: Multiset<(usize, usize)>,
    e: int,
    n: nat,
) -> bool {
    search_state(s, w, exit, q, n).1.len() == 0 || (n > 0 && cell_of(
        search_state(s, w, exit, q, n).0,
        e,
    ) is Calculated)
}

/// The queue that the search starts from: an entry for each reached field
/// among the first `k`.
pub open spec fn initial_queue(s: Seq<Field>, w: int, exit: (usize, usize), k: nat) -> Multiset<
    (usize, usize),
>
    decreases k,
{
    if k == 0 {
        Multiset::empty()
    } else {
        let q = initial_queue(s, w, exit, (k - 1) as nat);
        if s[k - 1] is Calculated {
            q.insert(queue_item(s[k - 1], k - 1, w, exit))
        } else {
            q
        }
    }
}

proof fn lemma_queue_min(q: Multiset<(usize, usize)>, x: (usize, usize))
    requires
        q.contains(x),
        forall|y: (usize, usize)| q.contains(y) ==> item_le(x, y),
    ensures
        queue_min(q) == x,
{
    let m = queue_min(q);
    assert(item_le(m, x) && item_le(x, m));
}

/// The pair (open fields, weight) of `a` is below that of `b`.
pub open spec fn lex_lt(a: Seq<Field>, b: Seq<Field>) -> bool {
    empties(a) < empties(b) || (empties(a) == empties(b) && weight(a) < weight(b))
}

/// The pair (open fields, weight) of `a` is at most that of `b`.
pub open spec fn lex_le(a: Seq<Field>, b: Seq<Field>) -> bool {
    empties(a) < empties(b) || (empties(a) == empties(b) && weight(a) <= weight(b))
}

/// The queue `q2` extends `q1`.
pub open spec fn extends(q2: Seq<(usize, usize)>, q1: Seq<(usize, usize)>) -> bool {
    q2.len() >= q1.len() && forall|n: int| 0 <= n < q1.len() ==> #[trigger] q2[n] == q1[n]
}

proof fn lemma_queued_extends(q1: Seq<(usize, usize)>, q2: Seq<(usize, usize)>, k: int)
    requires
        extends(q2, q1),
        queued(q1, k),
    ensures
        queued(q2, k),
{
    let n = choose|n: int| 0 <= n < q1.len() && #[trigger] q1[n].1 == k;
    assert(q2[n] == q1[n]);
}

/// The grid `m2` is pointwise no worse than `m1`, in the same shape.
pub open spec fn improves(m2: Maze, m1: Maze) -> bool {
    &&& m2.wf()
    &&& m2.width() == m1.width()
    &&& m2.cells().len() == m1.cells().len()
    &&& forall|k: int| 0 <= k < m1.cells().len() ==> no_worse(#[trigger] m2.cells()[k], m1.cells()[k])
}

/// A neighbour that needs no update from a field keeps needing none while the
/// field stays as it is and the grid improves.
proof fn lemma_towards_mono(m1: Maze, m2: Maze, i: int, to: u8)
    requires
        m1.wf(),
        improves(m2, m1),
        0 <= i < m1.cells().len(),
        m2.cells()[i] == m1.cells()[i],
        is_flag(to),
        settled_towards(m1, i, to),
    ensures
        settled_towards(m2, i, to),
{
    let j = m1.neighbor(i, to);
    assert(m2.neighbor(i, to) == j);
    if j >= 0 {
        lemma_neighbor_back(m1, i, to);
        assert(no_worse(m2.cells()[j], m1.cells()[j]));
        if m1.cells()[j] != Field::Wall {
            lemma_settled_mono(
                m1.cells()[j],
                m2.cells()[j],
                entry_cost(m1.cells()[i], opposite(to)),
                opposite(to),
            );
        }
    }
}

proof fn lemma_out_mono(m1: Maze, m2: Maze, i: int)
    requires
        m1.wf(),
        improves(m2, m1),
        0 <= i < m1.cells().len(),
        m2.cells()[i] == m1.cells()[i],
        settled_out(m1, i),
    ensures
        settled_out(m2, i),
{
    lemma_towards_mono(m1, m2, i, LEFT);
    lemma_towards_mono(m1, m2, i, RIGHT);
    lemma_towards_mono(m1, m2, i, UP);
    lemma_towards_mono(m1, m2, i, DOWN);
}

/// What one relaxation step from field `i` leaves, from `a` to `b`.
spec fn step(a: AStar, b: AStar, i: int) -> bool {
    &&& improves(b.maze, a.maze)
    &&& b.inv()
    &&& b.exit == a.exit
    &&& b.maze.cells()[i] == a.maze.cells()[i]
    &&& extends(b.queue@, a.queue@)
    &&& lex_le(b.maze.cells(), a.maze.cells())
    &&& (b.queue@.len() > a.queue@.len() ==> lex_lt(b.maze.cells(), a.maze.cells()))
    &&& (forall|k: int|
        0 <= k < a.maze.cells().len() && b.maze.cells()[k] != a.maze.cells()[k] ==> queued(
            b.queue@,
            k,
        ))
    &&& (a.maze.closed() ==> b.maze.cells() == a.maze.cells())
}

/// Two steps from field `i` make one, and what the first settled stays
/// settled.
proof fn lemma_chain(a: AStar, b: AStar, c: AStar, i: int, to: u8)
    requires
        a.inv(),
        0 <= i < a.maze.cells().len(),
        step(a, b, i),
        step(b, c, i),
        is_flag(to),
        settled_towards(b.maze, i, to),
    ensures
        step(a, c, i),
        settled_towards(c.maze, i, to),
{
    assert forall|k: int| 0 <= k < a.maze.cells().len() implies no_worse(
        #[trigger] c.maze.cells()[k],
        a.maze.cells()[k],
    ) by {
        lemma_no_worse_trans(c.maze.cells()[k], b.maze.cells()[k], a.maze.cells()[k]);
    }
    assert forall|k: int|
        0 <= k < a.maze.cells().len() && c.maze.cells()[k] != a.maze.cells()[k] implies queued(
        c.queue@,
        k,
    ) by {
        if c.maze.cells()[k] == b.maze.cells()[k] {
            lemma_queued_extends(b.queue@, c.queue@, k);
        }
    }
    if a.maze.closed() {
        lemma_closed_same(a.maze, b.maze);
    }
    lemma_towards_mono(b.maze, c.maze, i, to);
}

/// State of the search: the grid, the queue of (priority, index) pairs and
/// the exit.
struct AStar {
    maze: Maze,
    queue: Vec<(usize, usize)>,
    exit: (usize, usize),
}

/// Removes and returns an entry that leaves before every other one.
fn pop_min(q: &mut Vec<(usize, usize)>) -> (r: Option<(usize, usize)>)
    ensures
        old(q)@.len() == 0 <==> r is None,
        r matches Some(it) ==> exists|j: int|
            0 <= j < old(q)@.len() && old(q)@[j] == it && final(q)@ == old(q)@.remove(j)
                && forall|k: int| 0 <= k < old(q)@.len() ==> item_le(it, #[trigger] old(q)@[k]),
        r is None ==> final(q)@ == old(q)@,
{
    if q.len() == 0 {
        return None;
    }
    let mut best: usize = 0;
    let mut k: usize = 1;
    while k < q.len()
        invariant
            1 <= k <= q@.len(),
            best < q@.len(),
            forall|n: int| 0 <= n < k ==> item_le(q@[best as int], #[trigger] q@[n]),
        decreases q@.len() - k,
    {
        if item_le_exec(q[k], q[best]) {
            best = k;
        }
        k = k + 1;
    }
    let it = q.remove(best);
    Some(it)
}

fn item_le_exec(a: (usize, usize), b: (usize, usize)) -> (r: bool)
    ensures
        r == item_le(a, b),
{
    a.0 < b.0 || (a.0 == b.0 && a.1 <= b.1)
}

impl AStar {
    spec fn inv(&self) -> bool {
        &&& self.maze.wf()
        &&& forall|n: int| 0 <= n < self.queue@.len() ==> #[trigger] self.queue@[n].1 < self.maze.cells().len()
    }

    /// Queues every reached field of `maze`.
    fn new(maze: Maze, x: usize, y: usize) -> (r: AStar)
        requires
            maze.wf(),
        ensures
            r.inv(),
            r.maze == maze,
            r.exit == (x, y),
            forall|k: int|
                0 <= k < maze.cells().len() && #[trigger] maze.cells()[k] is Calculated ==> queued(
                    r.queue@,
                    k,
                ),
            r.queue@.to_multiset() == initial_queue(
                maze.cells(),
                maze.width() as int,
                (x, y),
                maze.cells().len(),
            ),
    {
        broadcast use group_to_multiset_ensures;

        let mut s = AStar { maze, queue: Vec::new(), exit: (x, y) };
        let mut idx: usize = 0;
        while idx < s.maze.maze.len()
            invariant
                s.maze == maze,
                s.exit == (x, y),
                s.inv(),
                idx <= maze.cells().len(),
                forall|k: int|
                    0 <= k < idx && #[trigger] maze.cells()[k] is Calculated ==> queued(s.queue@, k),
                s.queue@.to_multiset() == initial_queue(
                    maze.cells(),
                    maze.width() as int,
                    (x, y),
                    idx as nat,
                ),
            decreases maze.cells().len() - idx,
        {
            let ghost q0 = s.queue@;
            s.enqueue(idx);
            proof {
                let w = maze.width() as int;
                let k = (idx + 1) as nat;
                assert(initial_queue(maze.cells(), w, (x, y), k) == if maze.cells()[k - 1] is Calculated {
                    initial_queue(maze.cells(), w, (x, y), (k - 1) as nat).insert(
                        queue_item(maze.cells()[k - 1], k - 1, w, (x, y)),
                    )
                } else {
                    initial_queue(maze.cells(), w, (x, y), (k - 1) as nat)
                });
                if maze.cells()[idx as int] is Calculated {
                    let it = queue_item(maze.cells()[idx as int], idx as int, w, (x, y));
                    assert(s.queue@ == q0.push(it));
                    q0.to_multiset_ensures();
                }
                assert forall|k: int|
                    0 <= k < idx + 1 && #[trigger] maze.cells()[k] is Calculated implies queued(
                    s.queue@,
                    k,
                ) by {
                    if k < idx {
                        let n = choose|n: int| 0 <= n < q0.len() && #[trigger] q0[n].1 == k;
                        assert(s.queue@[n] == q0[n]);
                    } else {
                        assert(s.queue@[q0.len() as int].1 == k);
                    }
                }
            }
            idx = idx + 1;
        }
        s
    }

    /// Queues field `idx` with its priority where it is reached.
    fn enqueue(&mut self, idx: usize)
        requires
            old(self).inv(),
            idx < old(self).maze.cells().len(),
        ensures
            final(self).inv(),
            final(self).maze == old(self).maze,
            final(self).exit == old(self).exit,
            match old(self).maze.cells()[idx as int] {
                Field::Calculated(d, c) => final(self).queue@ == old(self).queue@.push(
                    (
                        priority(
                            d,
                            c,
                            (idx as int % old(self).maze.width() as int) as usize,
                            (idx as int / old(self).maze.width() as int) as usize,
                            old(self).exit,
                        ),
                        idx,
                    ),
                ),
                _ => final(self).queue@ == old(self).queue@,
            },
    {
        if let Field::Calculated(dir, cost) = self.maze.maze[idx] {
            let v = Dir::vec(self.maze.coords(idx), self.exit);
            let rotations = dir.min_rotation(v);
            self.queue.push((cost.saturating_add(rotations), idx));
        }
    }

    /// Relaxes the neighbour of field `idx` in direction `to` from `idx`,
    /// queueing it where it got better. An equal cost through a side that is
    /// already among the neighbour's directions changes nothing, so nothing is
    /// queued for it.
    #[verifier::rlimit(100)]
    fn relax(&mut self, idx: usize, to: u8)
        requires
            old(self).inv(),
            idx < old(self).maze.cells().len(),
            is_flag(to),
        ensures
            final(self).inv(),
            final(self).exit == old(self).exit,
            final(self).maze.width() == old(self).maze.width(),
            final(self).maze.cells().len() == old(self).maze.cells().len(),
            final(self).maze.cells()[idx as int] == old(self).maze.cells()[idx as int],
            settled_towards(final(self).maze, idx as int, to),
            forall|k: int|
                0 <= k < old(self).maze.cells().len() ==> no_worse(
                    #[trigger] final(self).maze.cells()[k],
                    old(self).maze.cells()[k],
                ),
            forall|k: int|
                0 <= k < old(self).maze.cells().len() && final(self).maze.cells()[k]
                    != old(self).maze.cells()[k] ==> better(
                    final(self).maze.cells()[k],
                    old(self).maze.cells()[k],
                ) && queued(final(self).queue@, k),
            final(self).queue@.len() >= old(self).queue@.len(),
            forall|n: int|
                0 <= n < old(self).queue@.len() ==> #[trigger] final(self).queue@[n]
                    == old(self).queue@[n],
            lex_le(final(self).maze.cells(), old(self).maze.cells()),
            final(self).queue@.len() > old(self).queue@.len() ==> lex_lt(
                final(self).maze.cells(),
                old(self).maze.cells(),
            ),
            final(self).queue@.len() <= old(self).queue@.len() + 1,
            old(self).maze.closed() ==> final(self).maze.cells() == old(self).maze.cells(),
            (final(self).maze.cells(), final(self).queue@.to_multiset()) == relax_spec(
                old(self).maze.cells(),
                old(self).maze.width() as int,
                old(self).exit,
                old(self).queue@.to_multiset(),
                idx as int,
                to,
            ),
    {
        broadcast use group_to_multiset_ensures;

        let ghost m0 = self.maze;
        let ghost q0 = self.queue@;
        let from = if to == LEFT {
            RIGHT
        } else if to == RIGHT {
            LEFT
        } else if to == UP {
            DOWN
        } else {
            UP
        };
        let field = self.maze.maze[idx];
        let cost = match field {
            Field::Calculated(dir, cost) => {
                if dir.has_all(Dir(from)) {
                    Some(cost)
                } else {
                    cost.checked_add(1)
                }
            },
            _ => None,
        };
        let next_idx = self.maze.in_dir_idx(idx, Dir(to));
        proof {
            assert forall|k: int| 0 <= k < m0.cells().len() implies no_worse(
                #[trigger] m0.cells()[k],
                m0.cells()[k],
            ) by {
                lemma_no_worse_refl(m0.cells()[k]);
            }
            if m0.neighbor(idx as int, to) >= 0 {
                lemma_neighbor_back(m0, idx as int, to);
            }
        }
        proof {
            assert(cost == entry_cost(m0.cells()[idx as int], from));
            lemma_progress(m0.cells(), m0.cells());
        }
        if next_idx >= self.maze.maze.len() {
            return;
        }
        let cost = match cost {
            Some(c) => c,
            None => {
                return;
            },
        };
        let next = self.maze.maze[next_idx];
        let updated = relax_field(next, from, cost);
        match updated {
            None => {},
            Some(f) => {
                proof {
                    // A closed grid would have left the neighbour settled.
                    if m0.closed() {
                        lemma_neighbor_back(m0, idx as int, to);
                        assert(settled(
                            m0.cells()[next_idx as int],
                            entry_cost(m0.at(m0.neighbor(next_idx as int, from)), from),
                            from,
                        ));
                        assert(false);
                    }
                }
                self.maze.maze.set(next_idx, f);
                self.enqueue(next_idx);
                proof {
                    assert(self.queue@[q0.len() as int].1 == next_idx);
                    assert(better(
                        self.maze.cells()[next_idx as int],
                        m0.cells()[next_idx as int],
                    ));
                    assert forall|k: int| 0 <= k < m0.cells().len() implies no_worse(
                        #[trigger] self.maze.cells()[k],
                        m0.cells()[k],
                    ) by {
                        lemma_no_worse_refl(m0.cells()[k]);
                    }
                    lemma_progress(self.maze.cells(), m0.cells());
                }
            },
        }
    }

    /// Relaxes all four neighbours of field `idx` from it.
    fn expand(&mut self, idx: usize)
        requires
            old(self).inv(),
            idx < old(self).maze.cells().len(),
        ensures
            final(self).inv(),
            final(self).exit == old(self).exit,
            final(self).maze.width() == old(self).maze.width(),
            final(self).maze.cells().len() == old(self).maze.cells().len(),
            final(self).maze.cells()[idx as int] == old(self).maze.cells()[idx as int],
            settled_out(final(self).maze, idx as int),
            forall|k: int|
                0 <= k < old(self).maze.cells().len() ==> no_worse(
                    #[trigger] final(self).maze.cells()[k],
                    old(self).maze.cells()[k],
                ),
            forall|k: int|
                0 <= k < old(self).maze.cells().len() && final(self).maze.cells()[k]
                    != old(self).maze.cells()[k] ==> queued(final(self).queue@, k),
            final(self).queue@.len() >= old(self).queue@.len(),
            forall|n: int|
                0 <= n < old(self).queue@.len() ==> #[trigger] final(self).queue@[n]
                    == old(self).queue@[n],
            lex_le(final(self).maze.cells(), old(self).maze.cells()),
            final(self).queue@.len() > old(self).queue@.len() ==> lex_lt(
                final(self).maze.cells(),
                old(self).maze.cells(),
            ),
            old(self).maze.closed() ==> final(self).maze.cells() == old(self).maze.cells(),
            (final(self).maze.cells(), final(self).queue@.to_multiset()) == expand_spec(
                old(self).maze.cells(),
                old(self).maze.width() as int,
                old(self).exit,
                old(self).queue@.to_multiset(),
                idx as int,
            ),
    {
        let ghost s0 = *self;
        self.relax(idx, LEFT);
        let ghost s1 = *self;
        self.relax(idx, RIGHT);
        let ghost s2 = *self;
        proof {
            lemma_chain(s0, s1, s2, idx as int, LEFT);
        }
        self.relax(idx, UP);
        let ghost s3 = *self;
        proof {
            lemma_chain(s0, s2, s3, idx as int, LEFT);
            lemma_chain(s1, s2, s3, idx as int, RIGHT);
        }
        self.relax(idx, DOWN);
        proof {
            let s4 = *self;
            lemma_chain(s0, s3, s4, idx as int, LEFT);
            lemma_chain(s2, s3, s4, idx as int, UP);
            lemma_chain(s1, s3, s4, idx as int, RIGHT);
        }
    }

    /// Expands fields in queue order until the exit is reached or the queue
    /// runs dry.
    #[verifier::rlimit(100)]
    fn run(self) -> (r: Maze)
        requires
            self.inv(),
            forall|k: int|
                0 <= k < self.maze.cells().len() && #[trigger] self.maze.cells()[k] is Calculated
                    ==> queued(self.queue@, k),
        ensures
            improves(r, self.maze),
            r.field_at(self.exit.0 as int, self.exit.1 as int) is Calculated || r.closed(),
            self.maze.closed() ==> r.cells() == self.maze.cells(),
            exists|n: nat|
                {
                    &&& r.cells() == search_state(
                        self.maze.cells(),
                        self.maze.width() as int,
                        self.exit,
                        self.queue@.to_multiset(),
                        n,
                    ).0
                    &&& search_halts(
                        self.maze.cells(),
                        self.maze.width() as int,
                        self.exit,
                        self.queue@.to_multiset(),
                        self.maze.index_of(self.exit.0 as int, self.exit.1 as int),
                        n,
                    )
                    &&& forall|j: nat|
                        j < n ==> !#[trigger] search_halts(
                            self.maze.cells(),
                            self.maze.width() as int,
                            self.exit,
                            self.queue@.to_multiset(),
                            self.maze.index_of(self.exit.0 as int, self.exit.1 as int),
                            j,
                        )
                },
    {
        let ghost start = self.maze;
        let ghost w = self.maze.width() as int;
        let ghost ex = self.exit;
        let ghost qs = self.queue@.to_multiset();
        let ghost e = self.maze.index_of(self.exit.0 as int, self.exit.1 as int);
        let ghost mut n: nat = 0;
        let mut s = self;
        proof {
            assert forall|k: int| 0 <= k < start.cells().len() implies no_worse(
                #[trigger] s.maze.cells()[k],
                start.cells()[k],
            ) by {
                lemma_no_worse_refl(start.cells()[k]);
            }
        }
        loop
            invariant_except_break
                n > 0 ==> !(cell_of(s.maze.cells(), e) is Calculated),
            invariant
                s.inv(),
                s.exit == self.exit,
                improves(s.maze, start),
                start.wf(),
                forall|k: int|
                    0 <= k < start.cells().len() && #[trigger] s.maze.cells()[k] is Calculated
                        ==> queued(s.queue@, k) || settled_out(s.maze, k),
                start.closed() ==> s.maze.cells() == start.cells(),
                w == start.width(),
                ex == self.exit,
                e == s.maze.index_of(ex.0 as int, ex.1 as int),
                (s.maze.cells(), s.queue@.to_multiset()) == search_state(start.cells(), w, ex, qs, n),
                forall|j: nat| j < n ==> !#[trigger] search_halts(start.cells(), w, ex, qs, e, j),
            ensures
                improves(s.maze, start),
                s.maze.field_at(self.exit.0 as int, self.exit.1 as int) is Calculated
                    || s.maze.closed(),
                start.closed() ==> s.maze.cells() == start.cells(),
                s.maze.cells() == search_state(start.cells(), w, ex, qs, n).0,
                search_halts(start.cells(), w, ex, qs, e, n),
                forall|j: nat| j < n ==> !#[trigger] search_halts(start.cells(), w, ex, qs, e, j),
            decreases empties(s.maze.cells()), weight(s.maze.cells()), s.queue@.len(),
        {
            let ghost q0 = s.queue@;
            let ghost m0 = s.maze;
            let item = pop_min(&mut s.queue);
            let (_, idx) = match item {
                None => {
                    proof {
                        q0.to_multiset_ensures();
                        assert forall|k: int|
                            0 <= k < m0.cells().len() && #[trigger] m0.cells()[k] is Calculated
                            implies settled_out(m0, k) by {
                            if queued(q0, k) {
                                let n = choose|n: int| 0 <= n < q0.len() && #[trigger] q0[n].1 == k;
                            }
                        }
                        lemma_all_settled_closed(m0);
                    }
                    break;
                },
                Some(it) => it,
            };
            let ghost j = choose|j: int|
                0 <= j < q0.len() && q0[j] == (item->0) && s.queue@ == q0.remove(j) && forall|
                    k: int,
                | 0 <= k < q0.len() ==> item_le(item->0, #[trigger] q0[k]);
            let ghost q1 = s.queue@;
            proof {
                q0.to_multiset_ensures();
                let it = item->0;
                assert(q0[j] == it);
                assert(q0.contains(it));
                assert forall|y: (usize, usize)| q0.to_multiset().contains(y) implies item_le(
                    it,
                    y,
                ) by {
                    assert(q0.contains(y));
                    let k = choose|k: int| 0 <= k < q0.len() && q0[k] == y;
                    assert(item_le(it, q0[k]));
                }
                lemma_queue_min(q0.to_multiset(), it);
                assert(q1.to_multiset() == q0.to_multiset().remove(it));
                assert(!search_halts(start.cells(), w, ex, qs, e, n));
                assert forall|jj: nat| jj < n + 1 implies !#[trigger] search_halts(
                    start.cells(),
                    w,
                    ex,
                    qs,
                    e,
                    jj,
                ) by {
                    if jj < n {
                        assert(!search_halts(start.cells(), w, ex, qs, e, jj));
                    }
                }
                assert(q0[j].1 == idx);
                assert forall|k: int|
                    0 <= k < m0.cells().len() && #[trigger] m0.cells()[k] is Calculated && k != idx
                    implies queued(q1, k) || settled_out(m0, k) by {
                    if queued(q0, k) {
                        let n = choose|n: int| 0 <= n < q0.len() && #[trigger] q0[n].1 == k;
                        if n < j {
                            assert(q1[n] == q0[n]);
                        } else if n > j {
                            assert(q1[n - 1] == q0[n]);
                        }
                    }
                }
            }
            if let Field::Calculated(_, _) = s.maze.maze[idx] {
                s.expand(idx);
                proof {
                    let m1 = s.maze;
                    assert forall|k: int|
                        0 <= k < start.cells().len() && #[trigger] m1.cells()[k] is Calculated
                        implies queued(s.queue@, k) || settled_out(m1, k) by {
                        if k != idx && m1.cells()[k] == m0.cells()[k] {
                            if queued(q1, k) {
                                lemma_queued_extends(q1, s.queue@, k);
                            } else {
                                lemma_out_mono(m0, m1, k);
                            }
                        }
                    }
                    assert forall|k: int| 0 <= k < start.cells().len() implies no_worse(
                        #[trigger] m1.cells()[k],
                        start.cells()[k],
                    ) by {
                        lemma_no_worse_trans(m1.cells()[k], m0.cells()[k], start.cells()[k]);
                    }
                    if start.closed() {
                        lemma_closed_same(start, m0);
                    }
                }
            } else {
                proof {
                    assert forall|k: int| 0 <= k < m0.cells().len() implies no_worse(
                        #[trigger] m0.cells()[k],
                        m0.cells()[k],
                    ) by {
                        lemma_no_worse_refl(m0.cells()[k]);
                    }
                }
            }
            proof {
                n = n + 1;
            }
            let (x, y) = s.exit;
            if let Field::Calculated(_, _) = s.maze.field(x, y) {
                break;
            }
        }
        s.maze
    }
}

/// Best-first search from the reached fields of `maze` towards the exit at
/// column `x`, row `y`. Fields leave the queue by their cost plus the
/// minimum rotation towards the exit; the search stops once the exit is
/// reached or the queue is empty.
///
/// The result is the grid after the first round at which the search halts,
/// starting from a queue that holds every reached field. It has the shape
/// and the walls of `maze`; no field is worse than before; either the exit is
/// reached or the grid is closed, so that an exit left open is unreachable;
/// and a closed grid comes back unchanged.
pub fn astar(maze: Maze, x: usize, y: usize) -> (r: Maze)
    requires
        maze.wf(),
    ensures
        r.wf(),
        r.width() == maze.width(),
        r.cells().len() == maze.cells().len(),
        forall|i: int|
            0 <= i < maze.cells().len() ==> no_worse(#[trigger] r.cells()[i], maze.cells()[i]),
        r.field_at(x as int, y as int) is Calculated || r.closed(),
        maze.closed() ==> r.cells() == maze.cells(),
        exists|n: nat|
            {
                &&& r.cells() == search_state(
                    maze.cells(),
                    maze.width() as int,
                    (x, y),
                    initial_queue(maze.cells(), maze.width() as int, (x, y), maze.cells().len()),
                    n,
                ).0
                &&& search_halts(
                    maze.cells(),
                    maze.width() as int,
                    (x, y),
                    initial_queue(maze.cells(), maze.width() as int, (x, y), maze.cells().len()),
                    maze.index_of(x as int, y as int),
                    n,
                )
                &&& forall|j: nat|
                    j < n ==> !#[trigger] search_halts(
                        maze.cells(),
                        maze.width() as int,
                        (x, y),
                        initial_queue(
                            maze.cells(),
                            maze.width() as int,
                            (x, y),
                            maze.cells().len(),
                        ),
                        maze.index_of(x as int, y as int),
                        j,
                    )
            },
{
    let search = AStar::new(maze, x, y);
    search.run()
}

} // verus!
