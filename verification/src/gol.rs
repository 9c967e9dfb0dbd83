//! The world store and the simulation engine.
//!
//! A world is a sparse set of living cells: a vector of coordinate/marker
//! entries with unique coordinates, every entry marked alive. Dead cells are
//! never materialized. The engine derives each generation from the previous
//! one by enumerating the coordinates whose state could change and applying
//! the classic survive/birth rule.

use vstd::prelude::*;

verus! {

/// A grid cell address: an ordered pair of signed integers.
#[derive(PartialEq, Eq, Structural, Clone, Copy, Hash, Debug)]
pub struct Coordinate {
    pub x: i32,
    pub y: i32,
}

/// The marker stored for a living cell. Presence in the store is what makes
/// a cell alive; the store's invariant keeps every stored marker alive.
#[derive(PartialEq, Eq, Structural, Clone, Copy, Hash, Debug)]
pub struct Cell {
    pub alive: bool,
}

/// A sparse world store: the set of living cells, nothing else.
#[derive(Debug)]
pub struct Game {
    world: Vec<(Coordinate, Cell)>,
}

/// The largest x coordinate stored in `s`, or 0 when `s` is empty.
pub open spec fn seq_max_x(s: Seq<(Coordinate, Cell)>) -> int
    decreases s.len(),
{
    if s.len() == 0 {
        0
    } else if s.len() == 1 {
        s[0].0.x as int
    } else if s.last().0.x as int > seq_max_x(s.drop_last()) {
        s.last().0.x as int
    } else {
        seq_max_x(s.drop_last())
    }
}

/// The largest y coordinate stored in `s`, or 0 when `s` is empty.
pub open spec fn seq_max_y(s: Seq<(Coordinate, Cell)>) -> int
    decreases s.len(),
{
    if s.len() == 0 {
        0
    } else if s.len() == 1 {
        s[0].0.y as int
    } else if s.last().0.y as int > seq_max_y(s.drop_last()) {
        s.last().0.y as int
    } else {
        seq_max_y(s.drop_last())
    }
}

/// `seq_max_x` of a non-empty store is the largest stored x coordinate: an
/// upper bound on every entry that some entry reaches.
pub proof fn lemma_seq_max_x_is_max(s: Seq<(Coordinate, Cell)>)
    ensures
        forall|i: int| 0 <= i < s.len() ==> (#[trigger] s[i]).0.x <= seq_max_x(s),
        s.len() > 0 ==> exists|i: int| 0 <= i < s.len() && (#[trigger] s[i]).0.x == seq_max_x(s),
    decreases s.len(),
{
    if s.len() > 1 {
        lemma_seq_max_x_is_max(s.drop_last());
        assert forall|i: int| 0 <= i < s.len() implies (#[trigger] s[i]).0.x <= seq_max_x(s) by {
            if i < s.len() - 1 {
                assert(s.drop_last()[i] == s[i]);
            }
        }
        if s.last().0.x as int > seq_max_x(s.drop_last()) {
            assert(s[s.len() - 1].0.x == seq_max_x(s));
        } else {
            let j = choose|j: int|
                0 <= j < s.drop_last().len() && (#[trigger] s.drop_last()[j]).0.x == seq_max_x(
                    s.drop_last(),
                );
            assert(s[j] == s.drop_last()[j]);
            assert(s[j].0.x == seq_max_x(s));
        }
    } else if s.len() == 1 {
        assert(s[0].0.x == seq_max_x(s));
    }
}

/// `seq_max_y` of a non-empty store is the largest stored y coordinate: an
/// upper bound on every entry that some entry reaches.
pub proof fn lemma_seq_max_y_is_max(s: Seq<(Coordinate, Cell)>)
    ensures
        forall|i: int| 0 <= i < s.len() ==> (#[trigger] s[i]).0.y <= seq_max_y(s),
        s.len() > 0 ==> exists|i: int| 0 <= i < s.len() && (#[trigger] s[i]).0.y == seq_max_y(s),
    decreases s.len(),
{
    if s.len() > 1 {
        lemma_seq_max_y_is_max(s.drop_last());
        assert forall|i: int| 0 <= i < s.len() implies (#[trigger] s[i]).0.y <= seq_max_y(s) by {
            if i < s.len() - 1 {
                assert(s.drop_last()[i] == s[i]);
            }
        }
        if s.last().0.y as int > seq_max_y(s.drop_last()) {
            assert(s[s.len() - 1].0.y == seq_max_y(s));
        } else {
            let j = choose|j: int|
                0 <= j < s.drop_last().len() && (#[trigger] s.drop_last()[j]).0.y == seq_max_y(
                    s.drop_last(),
                );
            assert(s[j] == s.drop_last()[j]);
            assert(s[j].0.y == seq_max_y(s));
        }
    } else if s.len() == 1 {
        assert(s[0].0.y == seq_max_y(s));
    }
}

/// (x, y) lies within Chebyshev distance one of `c`: it is `c` itself or one
/// of its eight neighbours.
pub open spec fn near(c: Coordinate, x: int, y: int) -> bool {
    -1 <= x - c.x <= 1 && -1 <= y - c.y <= 1
}

/// Some of the first `n` coordinates of `s` is (x, y).
pub open spec fn coord_in_prefix(s: Seq<Coordinate>, n: int, x: int, y: int) -> bool {
    exists|i: int| 0 <= i < n && (#[trigger] s[i]).x == x && s[i].y == y
}

/// Some coordinate of `s` is (x, y).
pub open spec fn coord_in(s: Seq<Coordinate>, x: int, y: int) -> bool {
    coord_in_prefix(s, s.len() as int, x, y)
}

/// No coordinate occurs twice in `s`: the sequence represents a set.
pub open spec fn distinct_coords(s: Seq<Coordinate>) -> bool {
    forall|i: int, j: int| 0 <= i < j < s.len() ==> (#[trigger] s[i]) != (#[trigger] s[j])
}

/// True iff some coordinate of `v` equals `c`.
fn contains_coord(v: &Vec<Coordinate>, c: &Coordinate) -> (r: bool)
    ensures
        r == coord_in(v@, c.x as int, c.y as int),
{
    let mut i: usize = 0;
    while i < v.len()
        invariant
            i <= v@.len(),
            forall|j: int| 0 <= j < i ==> !((#[trigger] v@[j]).x == c.x && v@[j].y == c.y),
        decreases v@.len() - i,
    {
        if v[i].x == c.x && v[i].y == c.y {
            proof {
                assert(v@[i as int].x == c.x && v@[i as int].y == c.y);
            }
            return true;
        }
        i = i + 1;
    }
    false
}

/// Appends `c` to `v` unless it is already there, so that `v` keeps
/// representing a set of coordinates.
fn push_unique(v: &mut Vec<Coordinate>, c: &Coordinate)
    requires
        distinct_coords(old(v)@),
    ensures
        distinct_coords(final(v)@),
        forall|x: int, y: int|
            #[trigger] coord_in(final(v)@, x, y) <==> (coord_in(old(v)@, x, y) || (x == c.x && y
                == c.y)),
{
    if !contains_coord(v, c) {
        v.push(*c);
        proof {
            let oldv = old(v)@;
            let newv = v@;
            assert forall|x: int, y: int|
                #[trigger] coord_in(newv, x, y) <==> (coord_in(oldv, x, y) || (x == c.x && y
                    == c.y)) by {
                if coord_in(newv, x, y) {
                    let i = choose|i: int|
                        0 <= i < newv.len() && (#[trigger] newv[i]).x == x && newv[i].y == y;
                    if i < oldv.len() {
                        assert(oldv[i] == newv[i]);
                        assert(coord_in(oldv, x, y));
                    } else {
                        assert(newv[i] == *c);
                    }
                }
                if coord_in(oldv, x, y) {
                    let i = choose|i: int|
                        0 <= i < oldv.len() && (#[trigger] oldv[i]).x == x && oldv[i].y == y;
                    assert(newv[i] == oldv[i]);
                    assert(coord_in(newv, x, y));
                }
                if x == c.x && y == c.y {
                    assert(newv[newv.len() - 1].x == x && newv[newv.len() - 1].y == y);
                    assert(coord_in(newv, x, y));
                }
            }
            assert forall|i: int, j: int| 0 <= i < j < newv.len() implies (#[trigger] newv[i])
                != (#[trigger] newv[j]) by {
                assert(oldv[i] == newv[i]);
                if j == newv.len() - 1 {
                    if newv[i] == *c {
                        assert(coord_in(oldv, c.x as int, c.y as int));
                    }
                } else {
                    assert(oldv[j] == newv[j]);
                }
            }
        }
    }
}

/// The eight cells at Chebyshev distance one from `coord`: every combination
/// of offsets dx, dy in {-1, 0, 1} except (0, 0). The centre itself is never
/// a neighbour of itself.
pub fn get_neighbours(coord: &Coordinate) -> (r: Vec<Coordinate>)
    requires
        i32::MIN < coord.x < i32::MAX,
        i32::MIN < coord.y < i32::MAX,
    ensures
        r@.len() == 8,
        r@[0].x == coord.x - 1 && r@[0].y == coord.y - 1,
        r@[1].x == coord.x && r@[1].y == coord.y - 1,
        r@[2].x == coord.x + 1 && r@[2].y == coord.y - 1,
        r@[3].x == coord.x - 1 && r@[3].y == coord.y,
        r@[4].x == coord.x + 1 && r@[4].y == coord.y,
        r@[5].x == coord.x - 1 && r@[5].y == coord.y + 1,
        r@[6].x == coord.x && r@[6].y == coord.y + 1,
        r@[7].x == coord.x + 1 && r@[7].y == coord.y + 1,
        forall|k: int| 0 <= k < 8 ==> (#[trigger] r@[k]) != *coord,
        forall|k: int, l: int| 0 <= k < l < 8 ==> (#[trigger] r@[k]) != (#[trigger] r@[l]),
{
    let mut r: Vec<Coordinate> = Vec::new();
    r.push(Coordinate { x: coord.x - 1, y: coord.y - 1 });
    r.push(Coordinate { x: coord.x, y: coord.y - 1 });
    r.push(Coordinate { x: coord.x + 1, y: coord.y - 1 });
    r.push(Coordinate { x: coord.x - 1, y: coord.y });
    r.push(Coordinate { x: coord.x + 1, y: coord.y });
    r.push(Coordinate { x: coord.x - 1, y: coord.y + 1 });
    r.push(Coordinate { x: coord.x, y: coord.y + 1 });
    r.push(Coordinate { x: coord.x + 1, y: coord.y + 1 });
    r
}

impl Game {
    /// The stored entries, as a mathematical sequence.
    pub closed spec fn entries(self) -> Seq<(Coordinate, Cell)> {
        self.world@
    }

    /// The cell at (x, y) is alive: some stored entry addresses it.
    pub open spec fn live(self, x: int, y: int) -> bool {
        exists|i: int|
            0 <= i < self.entries().len() && self.entries()[i].0.x == x
                && self.entries()[i].0.y == y
    }

    /// Store invariant: coordinates are unique and every entry is alive.
    pub open spec fn wf(self) -> bool {
        &&& forall|i: int| 0 <= i < self.entries().len() ==> (#[trigger] self.entries()[i]).1.alive
        &&& forall|i: int, j: int|
            0 <= i < j < self.entries().len()
                ==> !((#[trigger] self.entries()[i]).0.x == (#[trigger] self.entries()[j]).0.x
                && self.entries()[i].0.y == self.entries()[j].0.y)
    }

    /// The number of living neighbours of (x, y): how many of the eight
    /// cells at Chebyshev distance one are alive.
    pub open spec fn live_neighbour_count(self, x: int, y: int) -> int {
        (if self.live(x - 1, y - 1) { 1int } else { 0int })
            + (if self.live(x, y - 1) { 1int } else { 0int })
            + (if self.live(x + 1, y - 1) { 1int } else { 0int })
            + (if self.live(x - 1, y) { 1int } else { 0int })
            + (if self.live(x + 1, y) { 1int } else { 0int })
            + (if self.live(x - 1, y + 1) { 1int } else { 0int })
            + (if self.live(x, y + 1) { 1int } else { 0int })
            + (if self.live(x + 1, y + 1) { 1int } else { 0int })
    }

    /// (x, y) lies within Chebyshev distance one of one of the first `n`
    /// stored living cells.
    pub open spec fn interesting_prefix(self, n: int, x: int, y: int) -> bool {
        exists|i: int| 0 <= i < n && near((#[trigger] self.entries()[i]).0, x, y)
    }

    /// (x, y) could change state next generation: it is a living cell or
    /// adjacent to one. Only these coordinates can be alive next generation.
    pub open spec fn interesting(self, x: int, y: int) -> bool {
        self.interesting_prefix(self.entries().len() as int, x, y)
    }

    /// The classic transition rule, evaluated on this snapshot: (x, y) is
    /// alive next generation iff it has exactly three living neighbours, or
    /// has exactly two and is alive now.
    pub open spec fn next_live(self, x: int, y: int) -> bool {
        self.live_neighbour_count(x, y) == 3 || (self.live_neighbour_count(x, y) == 2
            && self.live(x, y))
    }

    /// All stored coordinates keep a margin of at least `m` to the edges of
    /// the machine-integer range, so neighbour arithmetic stays in bounds.
    pub open spec fn coords_within(self, m: int) -> bool {
        forall|i: int|
            0 <= i < self.entries().len() ==> i32::MIN + m <= (#[trigger] self.entries()[i]).0.x
                <= i32::MAX - m && i32::MIN + m <= self.entries()[i].0.y <= i32::MAX - m
    }

    /// Creates an empty world: every cell is dead.
    pub fn new() -> (g: Game)
        ensures
            g.wf(),
            g.entries().len() == 0,
            forall|x: int, y: int| !g.live(x, y),
    {
        Game { world: Vec::new() }
    }

    /// True iff the coordinate is a key in the store.
    pub fn is_alive(&self, coordinate: &Coordinate) -> (r: bool)
        ensures
            r == self.live(coordinate.x as int, coordinate.y as int),
    {
        let mut i: usize = 0;
        while i < self.world.len()
            invariant
                i <= self.world@.len(),
                forall|j: int|
                    0 <= j < i
                        ==> !((#[trigger] self.world@[j]).0.x == coordinate.x
                        && self.world@[j].0.y == coordinate.y),
            decreases self.world@.len() - i,
        {
            if self.world[i].0.x == coordinate.x && self.world[i].0.y == coordinate.y {
                proof {
                    assert(self.entries()[i as int].0.x == coordinate.x
                        && self.entries()[i as int].0.y == coordinate.y);
                }
                return true;
            }
            i = i + 1;
        }
        false
    }

    /// Marks the coordinate alive. Idempotent: the live set gains at most
    /// this one coordinate.
    pub fn bring_to_life(&mut self, coordinate: &Coordinate)
        requires
            old(self).wf(),
        ensures
            final(self).wf(),
            forall|x: int, y: int|
                #[trigger] final(self).live(x, y) <==> (old(self).live(x, y) || (x == coordinate.x
                    && y == coordinate.y)),
    {
        if !self.is_alive(coordinate) {
            self.world.push((*coordinate, Cell { alive: true }));
            proof {
                let oldw = old(self).entries();
                let neww = self.entries();
                assert forall|x: int, y: int|
                    #[trigger] self.live(x, y) <==> (old(self).live(x, y) || (x == coordinate.x
                        && y == coordinate.y)) by {
                    if self.live(x, y) {
                        let i = choose|i: int|
                            0 <= i < neww.len() && neww[i].0.x == x && neww[i].0.y == y;
                        if i < oldw.len() {
                            assert(oldw[i] == neww[i]);
                            assert(old(self).live(x, y));
                        } else {
                            assert(neww[i].0 == *coordinate);
                        }
                    }
                    if old(self).live(x, y) {
                        let i = choose|i: int|
                            0 <= i < oldw.len() && oldw[i].0.x == x && oldw[i].0.y == y;
                        assert(neww[i] == oldw[i]);
                        assert(self.live(x, y));
                    }
                    if x == coordinate.x && y == coordinate.y {
                        assert(neww[neww.len() - 1].0.x == x && neww[neww.len() - 1].0.y == y);
                        assert(self.live(x, y));
                    }
                }
                assert forall|i: int, j: int| 0 <= i < j < neww.len()
                    implies !((#[trigger] neww[i]).0.x == (#[trigger] neww[j]).0.x
                    && neww[i].0.y == neww[j].0.y) by {
                    if j == neww.len() - 1 {
                        assert(oldw[i] == neww[i]);
                        if neww[i].0.x == coordinate.x && neww[i].0.y == coordinate.y {
                            assert(old(self).live(coordinate.x as int, coordinate.y as int));
                        }
                    } else {
                        assert(oldw[i] == neww[i]);
                        assert(oldw[j] == neww[j]);
                    }
                }
                assert forall|i: int| 0 <= i < neww.len() implies (#[trigger] neww[i]).1.alive by {
                    if i < oldw.len() {
                        assert(oldw[i] == neww[i]);
                    }
                }
            }
        }
    }

    /// Removes the coordinate from the store. Idempotent: a no-op when the
    /// cell is already dead.
    pub fn kill(&mut self, coordinate: &Coordinate)
        requires
            old(self).wf(),
        ensures
            final(self).wf(),
            forall|x: int, y: int|
                #[trigger] final(self).live(x, y) <==> (old(self).live(x, y) && !(x == coordinate.x
                    && y == coordinate.y)),
    {
        let mut i: usize = 0;
        while i < self.world.len()
            invariant
                self.wf(),
                self == old(self),
                i <= self.world@.len(),
                forall|j: int|
                    0 <= j < i
                        ==> !((#[trigger] self.world@[j]).0.x == coordinate.x
                        && self.world@[j].0.y == coordinate.y),
            decreases self.world@.len() - i,
        {
            if self.world[i].0.x == coordinate.x && self.world[i].0.y == coordinate.y {
                let ghost r: int = i as int;
                self.world.remove(i);
                proof {
                    let oldw = old(self).entries();
                    let neww = self.entries();
                    assert(neww == oldw.remove(r));
                    assert forall|x: int, y: int|
                        #[trigger] self.live(x, y) <==> (old(self).live(x, y) && !(x
                            == coordinate.x && y == coordinate.y)) by {
                        if self.live(x, y) {
                            let j = choose|j: int|
                                0 <= j < neww.len() && neww[j].0.x == x && neww[j].0.y == y;
                            let oj: int = if j < r {
                                j
                            } else {
                                j + 1
                            };
                            assert(oldw[oj] == neww[j]);
                            assert(old(self).live(x, y));
                            if x == coordinate.x && y == coordinate.y {
                                assert(oldw[r].0.x == x && oldw[r].0.y == y);
                                if oj < r {
                                    assert(!(oldw[oj].0.x == oldw[r].0.x && oldw[oj].0.y
                                        == oldw[r].0.y));
                                } else {
                                    assert(!(oldw[r].0.x == oldw[oj].0.x && oldw[r].0.y
                                        == oldw[oj].0.y));
                                }
                                assert(false);
                            }
                        }
                        if old(self).live(x, y) && !(x == coordinate.x && y == coordinate.y) {
                            let oj = choose|oj: int|
                                0 <= oj < oldw.len() && oldw[oj].0.x == x && oldw[oj].0.y == y;
                            assert(oj != r);
                            let j: int = if oj < r {
                                oj
                            } else {
                                oj - 1
                            };
                            assert(neww[j] == oldw[oj]);
                            assert(self.live(x, y));
                        }
                    }
                    assert forall|i2: int, j2: int| 0 <= i2 < j2 < neww.len()
                        implies !((#[trigger] neww[i2]).0.x == (#[trigger] neww[j2]).0.x
                        && neww[i2].0.y == neww[j2].0.y) by {
                        let oi: int = if i2 < r {
                            i2
                        } else {
                            i2 + 1
                        };
                        let oj: int = if j2 < r {
                            j2
                        } else {
                            j2 + 1
                        };
                        assert(oldw[oi] == neww[i2]);
                        assert(oldw[oj] == neww[j2]);
                    }
                    assert forall|k: int| 0 <= k < neww.len() implies (#[trigger] neww[k]).1.alive
                        by {
                        let ok: int = if k < r {
                            k
                        } else {
                            k + 1
                        };
                        assert(oldw[ok] == neww[k]);
                    }
                }
                return ;
            }
            i = i + 1;
        }
    }

    /// The number of living cells among the eight neighbours of `coord`.
    pub fn count_living_neighbours(&self, coord: &Coordinate) -> (n: usize)
        requires
            i32::MIN < coord.x < i32::MAX,
            i32::MIN < coord.y < i32::MAX,
        ensures
            n == self.live_neighbour_count(coord.x as int, coord.y as int),
            n <= 8,
    {
        let nbrs = get_neighbours(coord);
        let mut n: usize = 0;
        if self.is_alive(&nbrs[0]) {
            n = n + 1;
        }
        if self.is_alive(&nbrs[1]) {
            n = n + 1;
        }
        if self.is_alive(&nbrs[2]) {
            n = n + 1;
        }
        if self.is_alive(&nbrs[3]) {
            n = n + 1;
        }
        if self.is_alive(&nbrs[4]) {
            n = n + 1;
        }
        if self.is_alive(&nbrs[5]) {
            n = n + 1;
        }
        if self.is_alive(&nbrs[6]) {
            n = n + 1;
        }
        if self.is_alive(&nbrs[7]) {
            n = n + 1;
        }
        n
    }

    /// Every coordinate whose state could change next generation: each
    /// living cell together with its eight neighbours, without duplicates.
    #[verifier::loop_isolation(false)]
    pub fn get_interesting_neighbours(&self) -> (r: Vec<Coordinate>)
        requires
            self.wf(),
            self.coords_within(1),
        ensures
            distinct_coords(r@),
            forall|x: int, y: int| #[trigger] coord_in(r@, x, y) <==> self.interesting(x, y),
    {
        let mut r: Vec<Coordinate> = Vec::new();
        let mut i: usize = 0;
        while i < self.world.len()
            invariant
                i <= self.entries().len(),
                distinct_coords(r@),
                forall|x: int, y: int|
                    #[trigger] coord_in(r@, x, y) <==> self.interesting_prefix(i as int, x, y),
            decreases self.entries().len() - i,
        {
            let c = self.world[i].0;
            proof {
                assert(self.entries()[i as int].0 == c);
            }
            push_unique(&mut r, &c);
            let nbrs = get_neighbours(&c);
            push_unique(&mut r, &nbrs[0]);
            push_unique(&mut r, &nbrs[1]);
            push_unique(&mut r, &nbrs[2]);
            push_unique(&mut r, &nbrs[3]);
            push_unique(&mut r, &nbrs[4]);
            push_unique(&mut r, &nbrs[5]);
            push_unique(&mut r, &nbrs[6]);
            push_unique(&mut r, &nbrs[7]);
            proof {
                assert forall|x: int, y: int|
                    #[trigger] coord_in(r@, x, y) <==> self.interesting_prefix(i + 1, x, y) by {
                    if coord_in(r@, x, y) {
                        if self.interesting_prefix(i as int, x, y) {
                            let j = choose|j: int|
                                0 <= j < i && near((#[trigger] self.entries()[j]).0, x, y);
                            assert(near(self.entries()[j].0, x, y));
                        } else {
                            assert(near(c, x, y));
                            assert(near(self.entries()[i as int].0, x, y));
                        }
                    }
                    if self.interesting_prefix(i + 1, x, y) {
                        let j = choose|j: int|
                            0 <= j < i + 1 && near((#[trigger] self.entries()[j]).0, x, y);
                        if j < i {
                            assert(self.interesting_prefix(i as int, x, y));
                            assert(coord_in(r@, x, y));
                        } else {
                            assert(near(c, x, y));
                            let dx = x - c.x;
                            let dy = y - c.y;
                            if dx == -1 && dy == -1 {
                                assert(coord_in(r@, x, y));
                            } else if dx == 0 && dy == -1 {
                                assert(coord_in(r@, x, y));
                            } else if dx == 1 && dy == -1 {
                                assert(coord_in(r@, x, y));
                            } else if dx == -1 && dy == 0 {
                                assert(coord_in(r@, x, y));
                            } else if dx == 0 && dy == 0 {
                                assert(coord_in(r@, x, y));
                            } else if dx == 1 && dy == 0 {
                                assert(coord_in(r@, x, y));
                            } else if dx == -1 && dy == 1 {
                                assert(coord_in(r@, x, y));
                            } else if dx == 0 && dy == 1 {
                                assert(coord_in(r@, x, y));
                            } else {
                                assert(dx == 1 && dy == 1);
                                assert(coord_in(r@, x, y));
                            }
                        }
                    }
                }
            }
            i = i + 1;
        }
        r
    }

    /// Computes the next generation as a fresh world store. Pure: the
    /// current store is only read, and the result is determined, cell for
    /// cell, by the transition rule evaluated on this snapshot.
    #[verifier::loop_isolation(false)]
    pub fn advance(&self) -> (next: Game)
        requires
            self.wf(),
            self.coords_within(2),
        ensures
            next.wf(),
            forall|x: int, y: int| #[trigger] next.live(x, y) <==> self.next_live(x, y),
    {
        let interesting = self.get_interesting_neighbours();
        let mut next = Game::new();
        let mut i: usize = 0;
        while i < interesting.len()
            invariant
                next.wf(),
                i <= interesting@.len(),
                forall|x: int, y: int|
                    #[trigger] next.live(x, y) <==> (coord_in_prefix(interesting@, i as int, x, y)
                        && self.next_live(x, y)),
            decreases interesting@.len() - i,
        {
            let c = interesting[i];
            proof {
                assert(interesting@[i as int].x == c.x && interesting@[i as int].y == c.y);
                assert(coord_in(interesting@, c.x as int, c.y as int));
                lemma_interesting_margin(*self, c.x as int, c.y as int);
            }
            let n = self.count_living_neighbours(&c);
            let was_alive = self.is_alive(&c);
            let ghost before = next;
            if n == 3 || (n == 2 && was_alive) {
                next.bring_to_life(&c);
            }
            proof {
                assert forall|x: int, y: int|
                    #[trigger] next.live(x, y) <==> (coord_in_prefix(interesting@, i + 1, x, y)
                        && self.next_live(x, y)) by {
                    if coord_in_prefix(interesting@, i + 1, x, y) {
                        let j = choose|j: int|
                            0 <= j < i + 1 && (#[trigger] interesting@[j]).x == x
                                && interesting@[j].y == y;
                        if j < i {
                            assert(coord_in_prefix(interesting@, i as int, x, y));
                        } else {
                            assert(x == c.x && y == c.y);
                        }
                    }
                    if coord_in_prefix(interesting@, i as int, x, y) {
                        let j = choose|j: int|
                            0 <= j < i && (#[trigger] interesting@[j]).x == x && interesting@[j].y
                                == y;
                        assert(coord_in_prefix(interesting@, i + 1, x, y));
                    }
                }
            }
            i = i + 1;
        }
        proof {
            assert forall|x: int, y: int| #[trigger] next.live(x, y) <==> self.next_live(x, y) by {
                if self.next_live(x, y) {
                    lemma_interesting_cover(*self, x, y);
                    assert(coord_in(interesting@, x, y));
                }
                if next.live(x, y) {
                    assert(coord_in_prefix(interesting@, interesting@.len() as int, x, y));
                }
            }
        }
        next
    }

    /// Replaces this world with its next generation: the thin stateful
    /// wrapper around the pure `advance`.
    pub fn step(&mut self)
        requires
            old(self).wf(),
            old(self).coords_within(2),
        ensures
            final(self).wf(),
            forall|x: int, y: int| #[trigger] final(self).live(x, y) <==> old(self).next_live(x, y),
    {
        *self = self.advance();
    }

    /// True iff every stored coordinate keeps a margin of two to the
    /// machine-integer range, which is what `advance` needs.
    pub fn can_advance(&self) -> (r: bool)
        ensures
            r == self.coords_within(2),
    {
        let mut i: usize = 0;
        while i < self.world.len()
            invariant
                i <= self.entries().len(),
                forall|j: int|
                    0 <= j < i ==> i32::MIN + 2 <= (#[trigger] self.entries()[j]).0.x <= i32::MAX
                        - 2 && i32::MIN + 2 <= self.entries()[j].0.y <= i32::MAX - 2,
            decreases self.entries().len() - i,
        {
            let c = self.world[i].0;
            if c.x < i32::MIN + 2 || c.x > i32::MAX - 2 || c.y < i32::MIN + 2 || c.y > i32::MAX - 2 {
                proof {
                    assert(!(i32::MIN + 2 <= self.entries()[i as int].0.x <= i32::MAX - 2
                        && i32::MIN + 2 <= self.entries()[i as int].0.y <= i32::MAX - 2));
                }
                return false;
            }
            i = i + 1;
        }
        true
    }

    /// The number of rows a snapshot of this world has: one per grid row
    /// from 0 through the largest living y coordinate.
    pub open spec fn render_rows(self) -> int {
        if seq_max_y(self.entries()) + 1 >= 0 {
            seq_max_y(self.entries()) + 1
        } else {
            0
        }
    }

    /// The number of cell characters per snapshot row: columns 0 through
    /// the largest living x coordinate, plus one extra dead column.
    pub open spec fn render_cols(self) -> int {
        if seq_max_x(self.entries()) + 2 >= 0 {
            seq_max_x(self.entries()) + 2
        } else {
            0
        }
    }

    /// Like `is_alive`, for a position that may lie outside the coordinate
    /// type's range (such positions are always dead).
    fn is_alive_at(&self, x: i64, y: i64) -> (r: bool)
        ensures
            r == self.live(x as int, y as int),
    {
        let mut i: usize = 0;
        while i < self.world.len()
            invariant
                i <= self.world@.len(),
                forall|j: int|
                    0 <= j < i ==> !((#[trigger] self.world@[j]).0.x == x && self.world@[j].0.y
                        == y),
            decreases self.world@.len() - i,
        {
            if self.world[i].0.x as i64 == x && self.world[i].0.y as i64 == y {
                proof {
                    assert(self.entries()[i as int].0.x == x && self.entries()[i as int].0.y == y);
                }
                return true;
            }
            i = i + 1;
        }
        false
    }

    /// The largest stored x coordinate, or 0 for an empty store.
    fn compute_max_x(&self) -> (r: i32)
        ensures
            r == seq_max_x(self.entries()),
    {
        let mut m: i32 = 0;
        let mut i: usize = 0;
        while i < self.world.len()
            invariant
                i <= self.entries().len(),
                i == 0 ==> m == 0,
                i >= 1 ==> m == seq_max_x(self.entries().take(i as int)),
            decreases self.entries().len() - i,
        {
            let v = self.world[i].0.x;
            proof {
                assert(self.entries().take(i + 1).drop_last() =~= self.entries().take(i as int));
                assert(self.entries().take(i + 1).last() == self.entries()[i as int]);
            }
            if i == 0 {
                m = v;
            } else if v > m {
                m = v;
            }
            i = i + 1;
        }
        proof {
            assert(self.entries().take(self.entries().len() as int) =~= self.entries());
        }
        m
    }

    /// The largest stored y coordinate, or 0 for an empty store.
    fn compute_max_y(&self) -> (r: i32)
        ensures
            r == seq_max_y(self.entries()),
    {
        let mut m: i32 = 0;
        let mut i: usize = 0;
        while i < self.world.len()
            invariant
                i <= self.entries().len(),
                i == 0 ==> m == 0,
                i >= 1 ==> m == seq_max_y(self.entries().take(i as int)),
            decreases self.entries().len() - i,
        {
            let v = self.world[i].0.y;
            proof {
                assert(self.entries().take(i + 1).drop_last() =~= self.entries().take(i as int));
                assert(self.entries().take(i + 1).last() == self.entries()[i as int]);
            }
            if i == 0 {
                m = v;
            } else if v > m {
                m = v;
            }
            i = i + 1;
        }
        proof {
            assert(self.entries().take(self.entries().len() as int) =~= self.entries());
        }
        m
    }

    /// Renders the snapshot text for the bounding box from (0, 0) to
    /// (max x + 1, max y): one character per cell, `0` alive and `.` dead,
    /// row-major, each row closed by a line break, with one extra dead
    /// column at the right edge.
    #[verifier::loop_isolation(false)]
    pub fn render(&self) -> (r: String)
        ensures
            r@.len() == self.render_rows() * (self.render_cols() + 1),
            forall|y: int, x: int|
                0 <= y < self.render_rows() && 0 <= x < self.render_cols()
                    ==> #[trigger] r@[y * (self.render_cols() + 1) + x] == (if self.live(x, y) {
                    '0'
                } else {
                    '.'
                }),
            forall|y: int|
                0 <= y < self.render_rows() ==> #[trigger] r@[y * (self.render_cols() + 1)
                    + self.render_cols()] == '\n',
    {
        proof {
            reveal_strlit("0");
            reveal_strlit(".");
            reveal_strlit("\n");
        }
        let mx = self.compute_max_x();
        let my = self.compute_max_y();
        let mut rows: i64 = my as i64 + 1;
        if rows < 0 {
            rows = 0;
        }
        let mut cols: i64 = mx as i64 + 2;
        if cols < 0 {
            cols = 0;
        }
        let mut out = String::new();
        let mut y: i64 = 0;
        while y < rows
            invariant
                0 <= y <= rows,
                out@.len() == y * (cols + 1),
                forall|y2: int, x2: int|
                    0 <= y2 < y && 0 <= x2 < cols ==> #[trigger] out@[y2 * (cols + 1) + x2] == (
                    if self.live(x2, y2) {
                        '0'
                    } else {
                        '.'
                    }),
                forall|y2: int| 0 <= y2 < y ==> #[trigger] out@[y2 * (cols + 1) + cols] == '\n',
            decreases rows - y,
        {
            let mut x: i64 = 0;
            while x < cols
                invariant
                    0 <= y < rows,
                    0 <= x <= cols,
                    out@.len() == y * (cols + 1) + x,
                    forall|y2: int, x2: int|
                        0 <= y2 < y && 0 <= x2 < cols ==> #[trigger] out@[y2 * (cols + 1) + x2]
                            == (if self.live(x2, y2) {
                            '0'
                        } else {
                            '.'
                        }),
                    forall|y2: int| 0 <= y2 < y ==> #[trigger] out@[y2 * (cols + 1) + cols] == '\n',
                    forall|x2: int|
                        0 <= x2 < x ==> #[trigger] out@[y * (cols + 1) + x2] == (if self.live(
                            x2,
                            y as int,
                        ) {
                            '0'
                        } else {
                            '.'
                        }),
                decreases cols - x,
            {
                let ghost pre = out@;
                if self.is_alive_at(x, y) {
                    out.append("0");
                } else {
                    out.append(".");
                }
                proof {
                    assert forall|y2: int, x2: int| 0 <= y2 < y && 0 <= x2 < cols
                        implies #[trigger] out@[y2 * (cols + 1) + x2] == (if self.live(x2, y2) {
                        '0'
                    } else {
                        '.'
                    }) by {
                        lemma_row_index_below(y2, x2, y as int, cols as int);
                        assert(out@[y2 * (cols + 1) + x2] == pre[y2 * (cols + 1) + x2]);
                    }
                    assert forall|y2: int| 0 <= y2 < y implies #[trigger] out@[y2 * (cols + 1)
                        + cols] == '\n' by {
                        lemma_row_index_below(y2, cols as int, y as int, cols as int);
                        assert(out@[y2 * (cols + 1) + cols] == pre[y2 * (cols + 1) + cols]);
                    }
                    assert forall|x2: int| 0 <= x2 < x + 1 implies #[trigger] out@[y * (cols + 1)
                        + x2] == (if self.live(x2, y as int) {
                        '0'
                    } else {
                        '.'
                    }) by {
                        if x2 < x {
                            assert(out@[y * (cols + 1) + x2] == pre[y * (cols + 1) + x2]);
                        } else {
                            assert(out@[pre.len() as int] == (if self.live(x as int, y as int) {
                                '0'
                            } else {
                                '.'
                            }));
                        }
                    }
                }
                x = x + 1;
            }
            let ghost pre = out@;
            out.append("\n");
            proof {
                assert((y + 1) * (cols + 1) == y * (cols + 1) + cols + 1) by (nonlinear_arith);
                assert forall|y2: int, x2: int| 0 <= y2 < y + 1 && 0 <= x2 < cols
                    implies #[trigger] out@[y2 * (cols + 1) + x2] == (if self.live(x2, y2) {
                    '0'
                } else {
                    '.'
                }) by {
                    if y2 < y {
                        lemma_row_index_below(y2, x2, y as int, cols as int);
                    }
                    assert(out@[y2 * (cols + 1) + x2] == pre[y2 * (cols + 1) + x2]);
                }
                assert forall|y2: int| 0 <= y2 < y + 1 implies #[trigger] out@[y2 * (cols + 1)
                    + cols] == '\n' by {
                    if y2 < y {
                        lemma_row_index_below(y2, cols as int, y as int, cols as int);
                        assert(out@[y2 * (cols + 1) + cols] == pre[y2 * (cols + 1) + cols]);
                    } else {
                        assert(out@[pre.len() as int] == '\n');
                    }
                }
            }
            y = y + 1;
        }
        out
    }

    /// The coordinates of the living cells, in storage order, without
    /// duplicates.
    #[verifier::loop_isolation(false)]
    pub fn live_cells(&self) -> (r: Vec<Coordinate>)
        ensures
            r@.len() == self.entries().len(),
            forall|i: int| 0 <= i < r@.len() ==> (#[trigger] r@[i]) == self.entries()[i].0,
    {
        let mut r: Vec<Coordinate> = Vec::new();
        let mut i: usize = 0;
        while i < self.world.len()
            invariant
                i <= self.entries().len(),
                r@.len() == i,
                forall|j: int| 0 <= j < i ==> (#[trigger] r@[j]) == self.entries()[j].0,
            decreases self.entries().len() - i,
        {
            r.push(self.world[i].0);
            i = i + 1;
        }
        r
    }
}

/// Living cells, and cells with at least one living neighbour, are exactly
/// the interesting coordinates: nothing else can be alive next generation.
proof fn lemma_interesting_cover(g: Game, x: int, y: int)
    requires
        g.live(x, y) || g.live_neighbour_count(x, y) >= 1,
    ensures
        g.interesting(x, y),
{
    if g.live(x, y) {
        let i = choose|i: int|
            0 <= i < g.entries().len() && (#[trigger] g.entries()[i]).0.x == x && g.entries()[i].0.y
                == y;
        assert(near(g.entries()[i].0, x, y));
    } else if g.live(x - 1, y - 1) {
        let i = choose|i: int|
            0 <= i < g.entries().len() && (#[trigger] g.entries()[i]).0.x == x - 1
                && g.entries()[i].0.y == y - 1;
        assert(near(g.entries()[i].0, x, y));
    } else if g.live(x, y - 1) {
        let i = choose|i: int|
            0 <= i < g.entries().len() && (#[trigger] g.entries()[i]).0.x == x && g.entries()[i].0.y
                == y - 1;
        assert(near(g.entries()[i].0, x, y));
    } else if g.live(x + 1, y - 1) {
        let i = choose|i: int|
            0 <= i < g.entries().len() && (#[trigger] g.entries()[i]).0.x == x + 1
                && g.entries()[i].0.y == y - 1;
        assert(near(g.entries()[i].0, x, y));
    } else if g.live(x - 1, y) {
        let i = choose|i: int|
            0 <= i < g.entries().len() && (#[trigger] g.entries()[i]).0.x == x - 1
                && g.entries()[i].0.y == y;
        assert(near(g.entries()[i].0, x, y));
    } else if g.live(x + 1, y) {
        let i = choose|i: int|
            0 <= i < g.entries().len() && (#[trigger] g.entries()[i]).0.x == x + 1
                && g.entries()[i].0.y == y;
        assert(near(g.entries()[i].0, x, y));
    } else if g.live(x - 1, y + 1) {
        let i = choose|i: int|
            0 <= i < g.entries().len() && (#[trigger] g.entries()[i]).0.x == x - 1
                && g.entries()[i].0.y == y + 1;
        assert(near(g.entries()[i].0, x, y));
    } else if g.live(x, y + 1) {
        let i = choose|i: int|
            0 <= i < g.entries().len() && (#[trigger] g.entries()[i]).0.x == x && g.entries()[i].0.y
                == y + 1;
        assert(near(g.entries()[i].0, x, y));
    } else {
        assert(g.live(x + 1, y + 1));
        let i = choose|i: int|
            0 <= i < g.entries().len() && (#[trigger] g.entries()[i]).0.x == x + 1
                && g.entries()[i].0.y == y + 1;
        assert(near(g.entries()[i].0, x, y));
    }
}

/// A character position in an earlier snapshot row comes before every
/// position in the current row.
proof fn lemma_row_index_below(y2: int, x2: int, y: int, w: int)
    requires
        0 <= y2 < y,
        0 <= x2 <= w,
    ensures
        y2 * (w + 1) + x2 < y * (w + 1),
{
    assert(y2 * (w + 1) + x2 < y * (w + 1)) by (nonlinear_arith)
        requires
            0 <= y2 < y,
            0 <= x2 <= w,
    ;
}

/// Law: on an empty world store every cell is dead, so `is_alive` returns
/// false there for every coordinate whatsoever.
pub proof fn lemma_empty_world_all_dead(g: Game, x: int, y: int)
    requires
        g.entries().len() == 0,
    ensures
        !g.live(x, y),
{
}

/// Law: the next generation is a function of the living-cell set alone.
/// Two stores with the same living cells agree on the whole next
/// generation, so `advance` is pure: equal snapshots give equal results.
pub proof fn lemma_advance_deterministic(g1: Game, g2: Game)
    requires
        forall|x: int, y: int| #[trigger] g1.live(x, y) == g2.live(x, y),
    ensures
        forall|x: int, y: int| #[trigger] g1.next_live(x, y) == g2.next_live(x, y),
{
    assert forall|x: int, y: int| #[trigger] g1.next_live(x, y) == g2.next_live(x, y) by {
        assert(g1.live(x, y) == g2.live(x, y));
        assert(g1.live(x - 1, y - 1) == g2.live(x - 1, y - 1));
        assert(g1.live(x, y - 1) == g2.live(x, y - 1));
        assert(g1.live(x + 1, y - 1) == g2.live(x + 1, y - 1));
        assert(g1.live(x - 1, y) == g2.live(x - 1, y));
        assert(g1.live(x + 1, y) == g2.live(x + 1, y));
        assert(g1.live(x - 1, y + 1) == g2.live(x - 1, y + 1));
        assert(g1.live(x, y + 1) == g2.live(x, y + 1));
        assert(g1.live(x + 1, y + 1) == g2.live(x + 1, y + 1));
    }
}

/// An interesting coordinate of a world whose cells keep a margin of two to
/// the machine-integer range keeps a margin of one itself.
proof fn lemma_interesting_margin(g: Game, x: int, y: int)
    requires
        g.coords_within(2),
        g.interesting(x, y),
    ensures
        i32::MIN + 1 <= x <= i32::MAX - 1,
        i32::MIN + 1 <= y <= i32::MAX - 1,
{
    let i = choose|i: int|
        0 <= i < g.entries().len() && near((#[trigger] g.entries()[i]).0, x, y);
    assert(i32::MIN + 2 <= g.entries()[i].0.x <= i32::MAX - 2);
}

} // verus!
