//! The arena: a bounded grid on which up to `MAX_PLAYERS` snakes move every
//! tick, eat beans, collide and die.

use rand::Rng;
use std::collections::VecDeque;
use vstd::prelude::*;
use crate::render::{Color, TUIBlock, YardBuf, BEAN, EMPTY, HEAD_D, HEAD_L, HEAD_R, HEAD_U};

verus! {

/// Relies on rand's `thread_rng().gen_range(0..n)`: a value drawn from
/// `0..n`. The call panics on an empty range, hence `n > 0`.
#[verifier::external_body]
fn random_below(n: usize) -> (r: usize)
    requires
        n > 0,
    ensures
        r < n,
{
    rand::thread_rng().gen_range(0..n)
}

/// A position on the field, as (row, column).
#[derive(Clone, Copy, PartialEq, Eq, Debug, Structural)]
pub struct Coord(pub usize, pub usize);

/// Left, right, up, down.
#[derive(Clone, Copy, PartialEq, Eq, Debug, Structural)]
pub enum Direction {
    L,
    R,
    U,
    D,
}

/// The reverse of a direction.
pub open spec fn opposite_of(d: Direction) -> Direction {
    match d {
        Direction::L => Direction::R,
        Direction::R => Direction::L,
        Direction::U => Direction::D,
        Direction::D => Direction::U,
    }
}

/// The neighbour of `c` in direction `d`, if it lies inside the rectangle
/// from (0, 0) up to (excluding) `bounds`.
pub open spec fn step_within(c: Coord, d: Direction, bounds: Coord) -> Option<Coord> {
    match d {
        Direction::L => if c.1 > 0 { Some(Coord(c.0, (c.1 - 1) as usize)) } else { None },
        Direction::R => if c.1 + 1 < bounds.1 { Some(Coord(c.0, (c.1 + 1) as usize)) } else { None },
        Direction::U => if c.0 > 0 { Some(Coord((c.0 - 1) as usize, c.1)) } else { None },
        Direction::D => if c.0 + 1 < bounds.0 { Some(Coord((c.0 + 1) as usize, c.1)) } else { None },
    }
}

/// Relies on rand (through `random_below`) to pick one of the four
/// directions.
fn random_direction() -> (r: Direction) {
    match random_below(4) {
        0 => Direction::L,
        1 => Direction::R,
        2 => Direction::U,
        _ => Direction::D,
    }
}

impl Direction {
    /// A random next direction that does not turn back: any direction but
    /// the opposite of `self`.
    pub fn next_random(self) -> (r: Direction)
        ensures
            r != opposite_of(self),
    {
        let k = random_below(3);
        let choices: [Direction; 3] = match self {
            Direction::L => [Direction::L, Direction::U, Direction::D],
            Direction::R => [Direction::R, Direction::U, Direction::D],
            Direction::U => [Direction::L, Direction::R, Direction::U],
            Direction::D => [Direction::L, Direction::R, Direction::D],
        };
        choices[k]
    }

    /// The glyph of a head going this way.
    pub fn glyph(&self) -> (r: &'static str)
        ensures
            r@ == head_glyph(*self),
    {
        match *self {
            Direction::L => HEAD_L,
            Direction::R => HEAD_R,
            Direction::U => HEAD_U,
            Direction::D => HEAD_D,
        }
    }

    /// The opposite direction, used to reject a snake turning back on itself.
    pub fn opposite(&self) -> (r: Direction)
        ensures
            r == opposite_of(*self),
    {
        match *self {
            Direction::L => Direction::R,
            Direction::R => Direction::L,
            Direction::U => Direction::D,
            Direction::D => Direction::U,
        }
    }
}

impl Coord {
    /// The neighbour in direction `d`, or `None` when it would leave the
    /// rectangle from (0, 0) up to `bounds` (rows, columns).
    pub fn move_toward(&self, d: Direction, bounds: Coord) -> (r: Option<Coord>)
        ensures
            r == step_within(*self, d, bounds),
    {
        match d {
            Direction::L => if self.1 > 0 { Some(Coord(self.0, self.1 - 1)) } else { None },
            Direction::R => if bounds.1 > 0 && self.1 < bounds.1 - 1 {
                Some(Coord(self.0, self.1 + 1))
            } else {
                None
            },
            Direction::U => if self.0 > 0 { Some(Coord(self.0 - 1, self.1)) } else { None },
            Direction::D => if bounds.0 > 0 && self.0 < bounds.0 - 1 {
                Some(Coord(self.0 + 1, self.1))
            } else {
                None
            },
        }
    }

    /// A random position inside the rectangle from (0, 0) up to `self`.
    pub fn rand_inside(&self) -> (r: Coord)
        requires
            self.0 > 0,
            self.1 > 0,
        ensures
            r.0 < self.0,
            r.1 < self.1,
    {
        let row = random_below(self.0);
        let col = random_below(self.1);
        Coord(row, col)
    }
}


/// The most snakes that can be on the field at once; slots are `0..MAX_PLAYERS`.
pub const MAX_PLAYERS: u8 = 5;

/// Ticks during which a freshly placed snake neither moves nor collides.
pub const STALL_TICKS: u64 = 10;

/// Random draws tried before a deterministic scan takes over.
const RANDOM_TRIES: usize = 64;

/// What one cell of the field holds. Slot ids fit a `u8`, since there are at
/// most `MAX_PLAYERS` of them.
#[derive(Clone, Copy, PartialEq, Eq, Debug, Structural)]
pub enum YardBlockType {
    Empty,
    Bean,
    Body(u8),
    Head(u8, Direction),
}

/// The colour of each slot's snake.
pub open spec fn player_color_of(id: int) -> Color {
    if id == 0 {
        Color::DarkGrey
    } else if id == 1 {
        Color::DarkRed
    } else if id == 2 {
        Color::DarkBlue
    } else if id == 3 {
        Color::DarkMagenta
    } else {
        Color::DarkCyan
    }
}

/// The colour of slot `id`'s snake, as shown on snapshots and score boards.
pub fn player_color(id: u8) -> (r: Color)
    requires
        id < MAX_PLAYERS,
    ensures
        r == player_color_of(id as int),
{
    match id {
        0 => Color::DarkGrey,
        1 => Color::DarkRed,
        2 => Color::DarkBlue,
        3 => Color::DarkMagenta,
        _ => Color::DarkCyan,
    }
}

/// The glyph of a head going in direction `d`.
pub open spec fn head_glyph(d: Direction) -> Seq<char> {
    match d {
        Direction::L => HEAD_L@,
        Direction::R => HEAD_R@,
        Direction::U => HEAD_U@,
        Direction::D => HEAD_D@,
    }
}

/// The slot whose snake occupies a cell, if any.
pub open spec fn owner_of(b: YardBlockType) -> Option<int> {
    match b {
        YardBlockType::Body(o) => Some(o as int),
        YardBlockType::Head(o, _) => Some(o as int),
        _ => None,
    }
}

pub open spec fn bean_weight(b: YardBlockType) -> nat {
    if b is Bean {
        1
    } else {
        0
    }
}

/// Number of beans in a row.
pub open spec fn beans_in_row(row: Seq<YardBlockType>) -> nat
    decreases row.len(),
{
    if row.len() == 0 {
        0
    } else {
        beans_in_row(row.drop_last()) + bean_weight(row.last())
    }
}

/// Number of beans on a grid of rows.
pub open spec fn beans_in_grid(g: Seq<Vec<YardBlockType>>) -> nat
    decreases g.len(),
{
    if g.len() == 0 {
        0
    } else {
        beans_in_grid(g.drop_last()) + beans_in_row(g.last()@)
    }
}

proof fn lemma_row_update(row: Seq<YardBlockType>, c: int, b: YardBlockType)
    requires
        0 <= c < row.len(),
    ensures
        beans_in_row(row.update(c, b)) + bean_weight(row[c]) == beans_in_row(row) + bean_weight(b),
    decreases row.len(),
{
    let u = row.update(c, b);
    if c == row.len() - 1 {
        assert(u.drop_last() =~= row.drop_last());
    } else {
        assert(u.drop_last() =~= row.drop_last().update(c, b));
        lemma_row_update(row.drop_last(), c, b);
    }
}

proof fn lemma_grid_update(g: Seq<Vec<YardBlockType>>, r: int, row: Vec<YardBlockType>)
    requires
        0 <= r < g.len(),
    ensures
        beans_in_grid(g.update(r, row)) + beans_in_row(g[r]@) == beans_in_grid(g) + beans_in_row(row@),
    decreases g.len(),
{
    let u = g.update(r, row);
    if r == g.len() - 1 {
        assert(u.drop_last() =~= g.drop_last());
    } else {
        assert(u.drop_last() =~= g.drop_last().update(r, row));
        lemma_grid_update(g.drop_last(), r, row);
    }
}

/// A snake: its cells with the head in front, and the direction it goes.
pub struct Snake(VecDeque<Coord>, Direction);

/// The cells of a straight snake of `n` cells whose tail is `tail` and whose
/// head lies `n - 1` steps from it in direction `d`, head first, as integer
/// pairs (they may leave the field).
pub open spec fn line_point(tail: Coord, d: Direction, k: int) -> (int, int) {
    match d {
        Direction::L => (tail.0 as int, tail.1 - k),
        Direction::R => (tail.0 as int, tail.1 + k),
        Direction::U => (tail.0 - k, tail.1 as int),
        Direction::D => (tail.0 + k, tail.1 as int),
    }
}

pub open spec fn as_coord(p: (int, int)) -> Coord {
    Coord(p.0 as usize, p.1 as usize)
}

/// The segment, head first, of a straight snake of `n` cells laid from `tail`
/// in direction `d`.
pub open spec fn line_segment(tail: Coord, d: Direction, n: nat) -> Seq<Coord> {
    Seq::new(n, |j: int| as_coord(line_point(tail, d, n - 1 - j)))
}

/// The game simulator: the field, the slot pool and the bean count.
pub struct YardSim {
    width: usize,
    height: usize,
    bean_count: usize,
    init_snake_len: usize,
    beans_left: usize,
    block_map: Vec<Vec<YardBlockType>>,
    snakes: Vec<Option<Snake>>,
    stall_protect: Vec<u64>,
    score: Vec<usize>,
    failed: Vec<bool>,
    bonused: Vec<usize>,
}

impl YardSim {
    /// Columns of the field.
    pub closed spec fn cols(&self) -> nat {
        self.width as nat
    }

    /// Rows of the field.
    pub closed spec fn rows(&self) -> nat {
        self.height as nat
    }

    /// The number of beans kept on the field.
    pub closed spec fn target(&self) -> nat {
        self.bean_count as nat
    }

    /// Length of a freshly placed snake as configured.
    pub closed spec fn init_len(&self) -> nat {
        self.init_snake_len as nat
    }

    /// Beans on the field now.
    pub closed spec fn beans(&self) -> nat {
        self.beans_left as nat
    }

    pub open spec fn inside(&self, c: Coord) -> bool {
        c.0 < self.rows() && c.1 < self.cols()
    }

    pub open spec fn bounds(&self) -> Coord {
        Coord(self.rows() as usize, self.cols() as usize)
    }

    /// The block at a cell.
    pub closed spec fn cell(&self, c: Coord) -> YardBlockType {
        self.block_map@[c.0 as int]@[c.1 as int]
    }

    /// Whether slot `i` holds a snake.
    pub closed spec fn live(&self, i: int) -> bool {
        self.snakes@[i] is Some
    }

    /// The cells of the snake in slot `i`, head first.
    pub closed spec fn segs(&self, i: int) -> Seq<Coord> {
        match self.snakes@[i] {
            Some(s) => s.0@,
            None => Seq::empty(),
        }
    }

    /// The direction the snake in slot `i` goes next.
    pub closed spec fn heading(&self, i: int) -> Direction {
        match self.snakes@[i] {
            Some(s) => s.1,
            None => Direction::L,
        }
    }

    /// Ticks of stall protection left to slot `i`.
    pub closed spec fn stall(&self, i: int) -> nat {
        self.stall_protect@[i] as nat
    }

    pub closed spec fn score(&self, i: int) -> usize {
        self.score@[i]
    }

    /// Score won by slot `i` during the current tick, not yet committed.
    pub closed spec fn bonus(&self, i: int) -> usize {
        self.bonused@[i]
    }

    pub closed spec fn is_failed(&self, i: int) -> bool {
        self.failed@[i]
    }

    /// Beans on the cells `(r, 0..c)`.
    pub open spec fn beans_in_cols(&self, r: int, c: int) -> nat
        decreases c,
    {
        if c <= 0 {
            0
        } else {
            self.beans_in_cols(r, c - 1) + bean_weight(self.cell(Coord(r as usize, (c - 1) as usize)))
        }
    }

    /// Beans on the rows `0..r`.
    pub open spec fn beans_in_rows(&self, r: int) -> nat
        decreases r,
    {
        if r <= 0 {
            0
        } else {
            self.beans_in_rows(r - 1) + self.beans_in_cols(r - 1, self.cols() as int)
        }
    }

    /// The number of cells of the field that hold a bean.
    pub open spec fn bean_cells(&self) -> nat {
        self.beans_in_rows(self.rows() as int)
    }

    proof fn lemma_row_count(&self, r: int, c: int)
        requires
            self.shaped(),
            0 <= r < self.rows(),
            0 <= c <= self.cols(),
        ensures
            beans_in_row(self.block_map@[r]@.subrange(0, c)) == self.beans_in_cols(r, c),
        decreases c,
    {
        let row = self.block_map@[r]@;
        if c > 0 {
            self.lemma_row_count(r, c - 1);
            assert(row.subrange(0, c).drop_last() =~= row.subrange(0, c - 1));
        } else {
            assert(row.subrange(0, c).len() == 0);
        }
    }

    proof fn lemma_grid_count(&self, r: int)
        requires
            self.shaped(),
            0 <= r <= self.rows(),
        ensures
            beans_in_grid(self.block_map@.subrange(0, r)) == self.beans_in_rows(r),
        decreases r,
    {
        if r > 0 {
            self.lemma_grid_count(r - 1);
            assert(self.block_map@.subrange(0, r).drop_last() =~= self.block_map@.subrange(0, r - 1));
            self.lemma_row_count(r - 1, self.cols() as int);
            assert(self.block_map@[r - 1]@.subrange(0, self.cols() as int) =~= self.block_map@[r - 1]@);
        } else {
            assert(self.block_map@.subrange(0, r).len() == 0);
        }
    }

    /// The bean counter of a consistent field is its number of bean cells,
    /// and a consistent field with no pending failure or bonus is well formed.
    pub proof fn lemma_bean_cells(&self)
        requires
            self.consistent(),
        ensures
            self.beans() == self.bean_cells(),
            self.beans() <= self.target(),
            (forall|i: int| 0 <= i < MAX_PLAYERS ==> !#[trigger] self.is_failed(i))
                && (forall|i: int| 0 <= i < MAX_PLAYERS ==> #[trigger] self.bonus(i) == 0) ==> self.wf(),
    {
        self.lemma_grid_count(self.rows() as int);
        assert(self.block_map@.subrange(0, self.rows() as int) =~= self.block_map@);
    }

    proof fn lemma_cols_bounds(&self, r: int, c: int)
        requires
            0 <= c,
        ensures
            self.beans_in_cols(r, c) <= c,
            (forall|j: int| 0 <= j < c ==> #[trigger] self.cell(Coord(r as usize, j as usize)) == YardBlockType::Bean)
                ==> self.beans_in_cols(r, c) == c,
        decreases c,
    {
        if c > 0 {
            self.lemma_cols_bounds(r, c - 1);
        }
    }

    /// The field holds at most one bean per cell, and exactly one per cell
    /// when every cell holds a bean.
    pub proof fn lemma_bean_cells_bounds(&self)
        ensures
            self.bean_cells() <= self.rows() * self.cols(),
            (forall|c: Coord| self.inside(c) ==> #[trigger] self.cell(c) == YardBlockType::Bean)
                ==> self.bean_cells() == self.rows() * self.cols(),
    {
        self.lemma_rows_bounds(self.rows() as int);
    }

    proof fn lemma_rows_bounds(&self, r: int)
        requires
            0 <= r <= self.rows(),
        ensures
            self.beans_in_rows(r) <= r * self.cols(),
            (forall|c: Coord| self.inside(c) ==> #[trigger] self.cell(c) == YardBlockType::Bean)
                ==> self.beans_in_rows(r) == r * self.cols(),
        decreases r,
    {
        if r > 0 {
            let w = self.cols() as int;
            self.lemma_rows_bounds(r - 1);
            self.lemma_cols_bounds(r - 1, w);
            assert((r - 1) * w + w == r * w) by (nonlinear_arith);
            if forall|c: Coord| self.inside(c) ==> #[trigger] self.cell(c) == YardBlockType::Bean {
                assert forall|j: int| 0 <= j < w implies #[trigger] self.cell(Coord((r - 1) as usize, j as usize))
                    == YardBlockType::Bean by {
                    assert(self.inside(Coord((r - 1) as usize, j as usize)));
                }
            }
        } else {
            assert(r * self.cols() == 0) by (nonlinear_arith)
                requires
                    r == 0,
            ;
        }
    }

    proof fn lemma_cols_monotone(&self, r: int, a: int, b: int)
        requires
            0 <= a <= b,
        ensures
            self.beans_in_cols(r, a) <= self.beans_in_cols(r, b),
        decreases b - a,
    {
        if a < b {
            self.lemma_cols_monotone(r, a, b - 1);
        }
    }

    proof fn lemma_blocked_runs(&self, r: int, k: int)
        requires
            0 <= r < self.rows(),
            0 <= k,
            k * self.seg_len() <= self.cols(),
            forall|c: Coord| self.inside(c) ==> (#[trigger] self.cell(c) == YardBlockType::Empty || self.cell(c)
                == YardBlockType::Bean),
            forall|q: int| 0 <= q < k ==> !#[trigger] self.fits(Coord(r as usize, (q * self.seg_len()) as usize), Direction::R),
        ensures
            self.beans_in_cols(r, k * self.seg_len()) >= k,
        decreases k,
    {
        let n = self.seg_len() as int;
        if k > 0 {
            assert((k - 1) * n + n == k * n) by (nonlinear_arith);
            assert(0 <= (k - 1) * n) by (nonlinear_arith)
                requires
                    k >= 1,
                    n >= 1,
            ;
            self.lemma_blocked_runs(r, k - 1);
            let t = Coord(r as usize, ((k - 1) * n) as usize);
            assert(!self.fits(t, Direction::R));
            let j = choose|j: int|
                0 <= j < n && !({
                    let p = #[trigger] line_point(t, Direction::R, j);
                    &&& 0 <= p.0 < self.rows()
                    &&& 0 <= p.1 < self.cols()
                    &&& self.cell(as_coord(p)) == YardBlockType::Empty
                });
            let pc = (k - 1) * n + j;
            let c = Coord(r as usize, pc as usize);
            assert(as_coord(line_point(t, Direction::R, j)) == c);
            assert(self.inside(c));
            assert(self.cell(c) == YardBlockType::Bean);
            self.lemma_cols_monotone(r, (k - 1) * n, pc);
            self.lemma_cols_monotone(r, pc + 1, k * n);
        }
    }

    proof fn lemma_blocked_rows(&self, r: int)
        requires
            0 <= r <= self.rows(),
            self.seg_len() <= self.cols(),
            forall|c: Coord| self.inside(c) ==> (#[trigger] self.cell(c) == YardBlockType::Empty || self.cell(c)
                == YardBlockType::Bean),
            forall|t: Coord| !#[trigger] self.fits(t, Direction::R),
        ensures
            self.beans_in_rows(r) >= r * (self.cols() / self.seg_len()),
        decreases r,
    {
        let n = self.seg_len() as int;
        let w = self.cols() as int;
        let g = w / n;
        if r > 0 {
            self.lemma_blocked_rows(r - 1);
            assert(g * n <= w) by (nonlinear_arith)
                requires
                    g == w / n,
                    n > 0,
            ;
            assert(0 <= g) by (nonlinear_arith)
                requires
                    g == w / n,
                    n > 0,
                    w >= 0,
            ;
            self.lemma_blocked_runs(r - 1, g);
            self.lemma_cols_monotone(r - 1, g * n, w);
            assert((r - 1) * g + g == r * g) by (nonlinear_arith);
        } else {
            assert(r * g == 0) by (nonlinear_arith)
                requires
                    r == 0,
            ;
        }
    }

    /// Room for a snake: on a field of empty and bean cells only, with fewer
    /// beans than there are disjoint runs of `seg_len()` cells along its rows,
    /// a snake fits somewhere.
    pub proof fn lemma_room_for_snake(&self)
        requires
            forall|c: Coord| self.inside(c) ==> (#[trigger] self.cell(c) == YardBlockType::Empty || self.cell(c)
                == YardBlockType::Bean),
            self.seg_len() <= self.cols(),
            self.bean_cells() < self.rows() * (self.cols() / self.seg_len()),
        ensures
            exists|t: Coord, d: Direction| self.fits(t, d),
    {
        if !(exists|t: Coord, d: Direction| self.fits(t, d)) {
            assert forall|t: Coord| !#[trigger] self.fits(t, Direction::R) by {
                if self.fits(t, Direction::R) {
                    assert(exists|t: Coord, d: Direction| self.fits(t, d));
                }
            }
            self.lemma_blocked_rows(self.rows() as int);
        }
    }

    /// A field without snakes has slot 0 free: the first snake placed goes
    /// there.
    pub proof fn lemma_first_slot_free(&self)
        requires
            forall|i: int| 0 <= i < MAX_PLAYERS ==> !#[trigger] self.live(i),
        ensures
            self.first_free() == Some(0int),
    {
        assert(!self.live(0));
    }

    /// Sizes of the grid and of the slot pool.
    pub closed spec fn shaped(&self) -> bool {
        &&& self.block_map@.len() == self.height
        &&& forall|r: int| 0 <= r < self.height ==> (#[trigger] self.block_map@[r])@.len() == self.width
        &&& self.snakes@.len() == MAX_PLAYERS
        &&& self.stall_protect@.len() == MAX_PLAYERS
        &&& self.score@.len() == MAX_PLAYERS
        &&& self.failed@.len() == MAX_PLAYERS
        &&& self.bonused@.len() == MAX_PLAYERS
    }

    /// The bean counter agrees with the field and stays within the target.
    pub closed spec fn beans_counted(&self) -> bool {
        &&& self.beans_left == beans_in_grid(self.block_map@)
        &&& self.beans_left <= self.bean_count
    }

    /// Segment `k` of slot `i` is painted on the field: the head as the
    /// slot's `Head` (or as its `Body` once the slot failed in this tick,
    /// after its head was repainted and its move refused), the rest as the
    /// slot's `Body`.
    pub open spec fn painted(&self, i: int, k: int) -> bool {
        let b = self.cell(self.segs(i)[k]);
        if k == 0 {
            (b is Head && owner_of(b) == Some(i)) || (self.is_failed(i) && b == YardBlockType::Body(
                i as u8,
            ))
        } else {
            b == YardBlockType::Body(i as u8)
        }
    }

    /// Every live snake has at least one cell, all inside the field, pairwise
    /// distinct, and all painted.
    pub open spec fn snake_ok(&self, i: int) -> bool {
        self.live(i) ==> {
            &&& self.segs(i).len() > 0
            &&& self.segs(i).no_duplicates()
            &&& forall|k: int| 0 <= k < self.segs(i).len() ==> self.inside(#[trigger] self.segs(i)[k])
            &&& forall|k: int| 0 <= k < self.segs(i).len() ==> #[trigger] self.painted(i, k)
        }
    }

    /// Every occupied cell belongs to a segment of a live snake.
    pub open spec fn occupant_ok(&self, c: Coord) -> bool {
        self.inside(c) && owner_of(self.cell(c)) is Some ==> {
            let o = owner_of(self.cell(c))->0;
            &&& 0 <= o < MAX_PLAYERS
            &&& self.live(o)
            &&& self.segs(o).contains(c)
        }
    }

    /// The field and the snakes' segment lists agree exactly.
    pub open spec fn occupancy_agrees(&self) -> bool {
        &&& forall|i: int| 0 <= i < MAX_PLAYERS ==> #[trigger] self.snake_ok(i)
        &&& forall|c: Coord| #[trigger] self.occupant_ok(c)
    }

    /// A slot without a snake has no pending bonus and no failure.
    pub open spec fn idle_ok(&self, i: int) -> bool {
        !self.live(i) ==> self.bonus(i) == 0 && !self.is_failed(i)
    }

    /// Well-formed in the middle of a tick: failures and bonuses may be
    /// pending.
    pub closed spec fn consistent(&self) -> bool {
        &&& self.shaped()
        &&& self.beans_counted()
        &&& self.occupancy_agrees()
        &&& forall|i: int| 0 <= i < MAX_PLAYERS ==> #[trigger] self.idle_ok(i)
    }

    /// Well-formed between ticks: consistent, with no failure and no bonus
    /// pending.
    pub open spec fn wf(&self) -> bool {
        &&& self.consistent()
        &&& self.beans() == self.bean_cells()
        &&& self.beans() <= self.target()
        &&& forall|i: int| 0 <= i < MAX_PLAYERS ==> !#[trigger] self.is_failed(i)
        &&& forall|i: int| 0 <= i < MAX_PLAYERS ==> #[trigger] self.bonus(i) == 0
    }

    /// The configuration, which never changes.
    pub open spec fn same_config(&self, other: &YardSim) -> bool {
        &&& self.rows() == other.rows()
        &&& self.cols() == other.cols()
        &&& self.target() == other.target()
        &&& self.init_len() == other.init_len()
    }

    /// Slot `i` holds the same in both states.
    pub open spec fn same_slot(&self, other: &YardSim, i: int) -> bool {
        &&& self.live(i) == other.live(i)
        &&& self.segs(i) == other.segs(i)
        &&& self.heading(i) == other.heading(i)
        &&& self.stall(i) == other.stall(i)
        &&& self.score(i) == other.score(i)
        &&& self.bonus(i) == other.bonus(i)
        &&& self.is_failed(i) == other.is_failed(i)
    }

    pub open spec fn same_slots(&self, other: &YardSim) -> bool {
        forall|i: int| 0 <= i < MAX_PLAYERS ==> #[trigger] self.same_slot(other, i)
    }

    /// Only the blocks may differ: what bean refilling may change.
    pub open spec fn same_but_blocks(&self, other: &YardSim) -> bool {
        &&& self.same_config(other)
        &&& self.same_slots(other)
    }

    /// `self` is `old` with beans added on empty cells, as many as fit up to
    /// the target: beans never exceed the target, and fall short of it only
    /// when no empty cell is left.
    pub open spec fn refilled_from(&self, old: &YardSim) -> bool {
        &&& self.same_but_blocks(old)
        &&& old.beans() <= self.beans() <= self.target()
        &&& self.beans() < self.target() ==> forall|c: Coord|
            self.inside(c) ==> #[trigger] self.cell(c) != YardBlockType::Empty
        &&& forall|c: Coord|
            self.inside(c) ==> (#[trigger] self.cell(c) == old.cell(c) || (old.cell(c)
                == YardBlockType::Empty && self.cell(c) == YardBlockType::Bean))
    }

    /// A field of `height` rows and `width` columns with no bean and no
    /// snake yet; `bean_count` beans are to be kept on it and snakes are laid
    /// `init_snake_len` cells long.
    pub fn with_empty_grid(width: usize, height: usize, bean_count: usize, init_snake_len: usize) -> (y: YardSim)
        ensures
            y.wf(),
            y.cols() == width,
            y.rows() == height,
            y.target() == bean_count,
            y.init_len() == init_snake_len,
            y.beans() == 0,
            forall|c: Coord| y.inside(c) ==> #[trigger] y.cell(c) == YardBlockType::Empty,
            forall|i: int|
                0 <= i < MAX_PLAYERS ==> !#[trigger] y.live(i) && y.stall(i) == 0 && y.score(i) == 0,
    {
        let mut block_map: Vec<Vec<YardBlockType>> = Vec::new();
        let mut r: usize = 0;
        while r < height
            invariant
                r <= height,
                block_map@.len() == r,
                beans_in_grid(block_map@) == 0,
                forall|k: int| 0 <= k < r ==> (#[trigger] block_map@[k])@.len() == width,
                forall|k: int, j: int|
                    0 <= k < r && 0 <= j < width ==> #[trigger] block_map@[k]@[j]
                        == YardBlockType::Empty,
            decreases height - r,
        {
            let mut row: Vec<YardBlockType> = Vec::new();
            let mut c: usize = 0;
            while c < width
                invariant
                    c <= width,
                    row@.len() == c,
                    beans_in_row(row@) == 0,
                    forall|j: int| 0 <= j < c ==> #[trigger] row@[j] == YardBlockType::Empty,
                decreases width - c,
            {
                let ghost before = row@;
                row.push(YardBlockType::Empty);
                assert(row@.drop_last() =~= before);
                c = c + 1;
            }
            let ghost before = block_map@;
            block_map.push(row);
            assert(block_map@.drop_last() =~= before);
            r = r + 1;
        }
        let mut snakes: Vec<Option<Snake>> = Vec::new();
        let mut stall_protect: Vec<u64> = Vec::new();
        let mut score: Vec<usize> = Vec::new();
        let mut failed: Vec<bool> = Vec::new();
        let mut bonused: Vec<usize> = Vec::new();
        let mut i: usize = 0;
        while i < MAX_PLAYERS as usize
            invariant
                i <= MAX_PLAYERS,
                snakes@.len() == i,
                stall_protect@.len() == i,
                score@.len() == i,
                failed@.len() == i,
                bonused@.len() == i,
                forall|k: int| 0 <= k < i ==> #[trigger] snakes@[k] is None,
                forall|k: int| 0 <= k < i ==> #[trigger] stall_protect@[k] == 0,
                forall|k: int| 0 <= k < i ==> #[trigger] score@[k] == 0,
                forall|k: int| 0 <= k < i ==> !#[trigger] failed@[k],
                forall|k: int| 0 <= k < i ==> #[trigger] bonused@[k] == 0,
            decreases MAX_PLAYERS - i,
        {
            snakes.push(None);
            stall_protect.push(0);
            score.push(0);
            failed.push(false);
            bonused.push(0);
            i = i + 1;
        }
        let y = YardSim {
            width,
            height,
            bean_count,
            init_snake_len,
            beans_left: 0,
            block_map,
            snakes,
            stall_protect,
            score,
            failed,
            bonused,
        };
        assert forall|c: Coord| y.inside(c) implies #[trigger] y.cell(c) == YardBlockType::Empty by {
            assert(y.block_map@[c.0 as int]@[c.1 as int] == YardBlockType::Empty);
        }
        assert forall|c: Coord| #[trigger] y.occupant_ok(c) by {
            if y.inside(c) {
                assert(y.cell(c) == YardBlockType::Empty);
            }
        }
        assert forall|i: int| 0 <= i < MAX_PLAYERS implies #[trigger] y.snake_ok(i) by {
            assert(!y.live(i));
        }
        proof {
            y.lemma_bean_cells();
        }
        y
    }

    /// Looks for an empty cell, row by row.
    fn find_empty(&self) -> (r: Option<Coord>)
        requires
            self.shaped(),
        ensures
            r matches Some(c) ==> self.inside(c) && self.cell(c) == YardBlockType::Empty,
            r is None ==> forall|c: Coord| self.inside(c) ==> #[trigger] self.cell(c) != YardBlockType::Empty,
    {
        let mut r: usize = 0;
        while r < self.height
            invariant
                self.shaped(),
                r <= self.height,
                forall|c: Coord| self.inside(c) && c.0 < r ==> #[trigger] self.cell(c) != YardBlockType::Empty,
            decreases self.height - r,
        {
            let mut c: usize = 0;
            while c < self.width
                invariant
                    self.shaped(),
                    r < self.height,
                    c <= self.width,
                    forall|x: Coord| self.inside(x) && x.0 < r ==> #[trigger] self.cell(x) != YardBlockType::Empty,
                    forall|j: int| 0 <= j < c ==> #[trigger] self.cell(Coord(r, j as usize)) != YardBlockType::Empty,
                decreases self.width - c,
            {
                if self.block_map[r][c] == YardBlockType::Empty {
                    return Some(Coord(r, c));
                }
                c = c + 1;
            }
            assert forall|x: Coord| self.inside(x) && x.0 < r + 1 implies #[trigger] self.cell(x)
                != YardBlockType::Empty by {
                if x.0 == r {
                    assert(x == Coord(r, x.1 as int as usize));
                }
            }
            r = r + 1;
        }
        None
    }

    /// An empty cell, drawn at random; after `RANDOM_TRIES` unlucky draws the
    /// first empty cell row by row; `None` when the field has no empty cell.
    fn empty_spot(&self) -> (r: Option<Coord>)
        requires
            self.shaped(),
        ensures
            r matches Some(c) ==> self.inside(c) && self.cell(c) == YardBlockType::Empty,
            r is None ==> forall|c: Coord| self.inside(c) ==> #[trigger] self.cell(c) != YardBlockType::Empty,
    {
        if self.height > 0 && self.width > 0 {
            let bound = Coord(self.height, self.width);
            let mut k: usize = 0;
            while k < RANDOM_TRIES
                invariant
                    self.shaped(),
                    bound == Coord(self.height, self.width),
                    self.height > 0,
                    self.width > 0,
                decreases RANDOM_TRIES - k,
            {
                let c = bound.rand_inside();
                if self.block_map[c.0][c.1] == YardBlockType::Empty {
                    return Some(c);
                }
                k = k + 1;
            }
        }
        self.find_empty()
    }

    /// Puts a bean on cell `c` when it is inside the field, empty, and the
    /// field holds fewer beans than its target; says whether it did.
    pub fn place_bean(&mut self, c: Coord) -> (placed: bool)
        requires
            old(self).consistent(),
        ensures
            final(self).consistent(),
            old(self).wf() ==> final(self).wf(),
            final(self).same_but_blocks(old(self)),
            placed == (old(self).inside(c) && old(self).cell(c) == YardBlockType::Empty && old(self).beans()
                < old(self).target()),
            placed ==> final(self).beans() == old(self).beans() + 1 && final(self).cell(c)
                == YardBlockType::Bean && forall|x: Coord|
                final(self).inside(x) && x != c ==> #[trigger] final(self).cell(x) == old(self).cell(x),
            !placed ==> *final(self) == *old(self),
    {
        if c.0 < self.height && c.1 < self.width && self.beans_left < self.bean_count
            && self.block_map[c.0][c.1] == YardBlockType::Empty {
            self.paint_bean(c);
            true
        } else {
            false
        }
    }

    fn paint_bean(&mut self, c: Coord)
        requires
            old(self).consistent(),
            old(self).inside(c),
            old(self).cell(c) == YardBlockType::Empty,
            old(self).beans() < old(self).target(),
        ensures
            final(self).consistent(),
            old(self).wf() ==> final(self).wf(),
            final(self).same_but_blocks(old(self)),
            final(self).snakes == old(self).snakes,
            final(self).stall_protect == old(self).stall_protect,
            final(self).score == old(self).score,
            final(self).failed == old(self).failed,
            final(self).bonused == old(self).bonused,
            final(self).beans() == old(self).beans() + 1,
            final(self).cell(c) == YardBlockType::Bean,
            forall|x: Coord| final(self).inside(x) && x != c ==> #[trigger] final(self).cell(x) == old(self).cell(x),
    {
        let ghost pre = *self;
        self.set_cell(c, YardBlockType::Bean);
        let ghost mid = *self;
        self.beans_left = self.beans_left + 1;
        proof {
            assert forall|x: Coord| pre.inside(x) && x != c implies #[trigger] self.cell(x) == pre.cell(x) by {
                assert(mid.cell(x) == pre.cell(x));
            }
            assert forall|i: int| 0 <= i < MAX_PLAYERS implies #[trigger] self.snake_ok(i) by {
                assert(pre.snake_ok(i));
                if self.live(i) {
                    assert forall|k: int| 0 <= k < self.segs(i).len() implies #[trigger] self.painted(i, k) by {
                        assert(pre.painted(i, k));
                        assert(pre.inside(pre.segs(i)[k]));
                        assert(pre.cell(pre.segs(i)[k]) != YardBlockType::Empty);
                    }
                }
            }
            assert forall|x: Coord| #[trigger] self.occupant_ok(x) by {
                assert(pre.occupant_ok(x));
                if self.inside(x) && x != c {
                    assert(self.cell(x) == pre.cell(x));
                }
            }
            assert forall|j: int| 0 <= j < MAX_PLAYERS implies #[trigger] self.idle_ok(j) by {
                assert(pre.idle_ok(j));
            }
            assert forall|j: int| 0 <= j < MAX_PLAYERS implies #[trigger] self.is_failed(j) == pre.is_failed(j) by {}
            assert forall|j: int| 0 <= j < MAX_PLAYERS implies #[trigger] self.bonus(j) == pre.bonus(j) by {}
            assert(self.same_slots(&pre));
        }
        proof {
            self.lemma_bean_cells();
        }
    }

    /// Puts beans on empty cells until the field holds its target, or no
    /// empty cell is left.
    pub fn fill_beans(&mut self)
        requires
            old(self).consistent(),
        ensures
            final(self).consistent(),
            old(self).wf() ==> final(self).wf(),
            final(self).refilled_from(old(self)),
            old(self).beans() >= old(self).target() ==> *final(self) == *old(self),
    {
        loop
            invariant
                self.consistent(),
                old(self).wf() ==> self.wf(),
                self.same_config(old(self)),
                self.snakes == old(self).snakes,
                self.stall_protect == old(self).stall_protect,
                self.score == old(self).score,
                self.failed == old(self).failed,
                self.bonused == old(self).bonused,
                old(self).beans() <= self.beans() <= self.target(),
                forall|c: Coord|
                    self.inside(c) ==> (#[trigger] self.cell(c) == old(self).cell(c) || (old(self).cell(c)
                        == YardBlockType::Empty && self.cell(c) == YardBlockType::Bean)),
                self.beans() == old(self).beans() ==> *self == *old(self),
            ensures
                self.consistent(),
                old(self).wf() ==> self.wf(),
                self.refilled_from(old(self)),
                old(self).beans() >= old(self).target() ==> *self == *old(self),
            decreases self.bean_count - self.beans_left,
        {
            proof {
                assert(self.beans_counted());
                assert(self.same_slots(old(self)));
            }
            if self.beans_left >= self.bean_count {
                break;
            }
            match self.empty_spot() {
                Some(c) => {
                    self.paint_bean(c);
                },
                None => {
                    break;
                },
            }
        }
    }

    /// A field of `height` rows and `width` columns holding `bean_count`
    /// beans at random cells (fewer only if the field is smaller), on which
    /// snakes are laid `init_snake_len` cells long.
    pub fn new(width: usize, height: usize, bean_count: usize, init_snake_len: usize) -> (y: YardSim)
        ensures
            y.wf(),
            y.cols() == width,
            y.rows() == height,
            y.target() == bean_count,
            y.init_len() == init_snake_len,
            y.beans() == if bean_count <= width * height {
                bean_count as int
            } else {
                width * height
            },
            y.beans() < bean_count ==> forall|c: Coord| y.inside(c) ==> #[trigger] y.cell(c) == YardBlockType::Bean,
            forall|c: Coord| y.inside(c) ==> #[trigger] y.cell(c) == YardBlockType::Empty || y.cell(c)
                == YardBlockType::Bean,
            forall|i: int|
                0 <= i < MAX_PLAYERS ==> !#[trigger] y.live(i) && y.stall(i) == 0 && y.score(i) == 0,
    {
        let mut y = YardSim::with_empty_grid(width, height, bean_count, init_snake_len);
        let ghost e = y;
        y.fill_beans();
        proof {
            y.lemma_bean_cells();
            y.lemma_bean_cells_bounds();
            assert(y.rows() * y.cols() == width * height);
        }
        assert forall|i: int| 0 <= i < MAX_PLAYERS implies !#[trigger] y.live(i) && y.stall(i) == 0
            && y.score(i) == 0 by {
            assert(y.same_slot(&e, i));
        }
        y
    }

    /// Cells of a freshly placed snake: the configured length, at least one.
    pub open spec fn seg_len(&self) -> nat {
        if self.init_len() == 0 {
            1
        } else {
            self.init_len()
        }
    }

    /// The lowest free slot from `i` on.
    pub open spec fn free_from(&self, i: int) -> Option<int>
        decreases MAX_PLAYERS - i,
    {
        if i < 0 || i >= MAX_PLAYERS {
            None
        } else if !self.live(i) {
            Some(i)
        } else {
            self.free_from(i + 1)
        }
    }

    /// The lowest free slot.
    pub open spec fn first_free(&self) -> Option<int> {
        self.free_from(0)
    }

    /// A straight snake laid from `tail` in direction `d` lies inside the
    /// field, on empty cells only.
    pub open spec fn fits(&self, tail: Coord, d: Direction) -> bool {
        forall|k: int|
            0 <= k < self.seg_len() ==> {
                let p = #[trigger] line_point(tail, d, k);
                &&& 0 <= p.0 < self.rows()
                &&& 0 <= p.1 < self.cols()
                &&& self.cell(as_coord(p)) == YardBlockType::Empty
            }
    }

    /// `self` is `old` with a fresh snake in slot `i`, laid from `tail` in
    /// direction `d`, painted, and protected for `STALL_TICKS` ticks.
    pub open spec fn placed_from(&self, old: &YardSim, i: int, tail: Coord, d: Direction) -> bool {
        let seg = line_segment(tail, d, old.seg_len());
        &&& self.same_config(old)
        &&& self.beans() == old.beans()
        &&& forall|j: int| 0 <= j < MAX_PLAYERS && j != i ==> #[trigger] self.same_slot(old, j)
        &&& self.live(i)
        &&& self.segs(i) == seg
        &&& self.heading(i) == d
        &&& self.stall(i) == STALL_TICKS
        &&& self.score(i) == old.score(i)
        &&& self.bonus(i) == old.bonus(i)
        &&& self.is_failed(i) == old.is_failed(i)
        &&& self.cell(seg[0]) == YardBlockType::Head(i as u8, d)
        &&& forall|k: int| 0 < k < seg.len() ==> #[trigger] self.cell(seg[k]) == YardBlockType::Body(i as u8)
        &&& forall|c: Coord| self.inside(c) && !seg.contains(c) ==> #[trigger] self.cell(c) == old.cell(c)
    }

    /// The lowest free slot, if any.
    fn free_slot(&self) -> (r: Option<u8>)
        requires
            self.consistent(),
        ensures
            r matches Some(i) ==> self.first_free() == Some(i as int),
            r is None ==> self.first_free() is None,
    {
        let mut i: u8 = 0;
        while i < MAX_PLAYERS
            invariant
                self.shaped(),
                i <= MAX_PLAYERS,
                self.first_free() == self.free_from(i as int),
            decreases MAX_PLAYERS - i,
        {
            if self.snakes[i as usize].is_none() {
                return Some(i);
            }
            i = i + 1;
        }
        None
    }

    /// The cells of a snake laid from `tail` in direction `d`, head first,
    /// if it fits.
    fn lay_segment(&self, tail: Coord, d: Direction) -> (r: Option<VecDeque<Coord>>)
        requires
            self.shaped(),
        ensures
            r is Some == self.fits(tail, d),
            r matches Some(seg) ==> seg@ == line_segment(tail, d, self.seg_len()),
    {
        let n: usize = if self.init_snake_len == 0 { 1 } else { self.init_snake_len };
        let bound = Coord(self.height, self.width);
        if !(tail.0 < self.height && tail.1 < self.width) {
            assert(!(0 <= line_point(tail, d, 0).0 < self.rows() && 0 <= line_point(tail, d, 0).1 < self.cols()));
            return None;
        }
        if self.block_map[tail.0][tail.1] != YardBlockType::Empty {
            assert(as_coord(line_point(tail, d, 0)) == tail);
            return None;
        }
        let mut seg: VecDeque<Coord> = VecDeque::new();
        seg.push_front(tail);
        let mut cur = tail;
        let mut k: usize = 1;
        assert(seg@ =~= line_segment(tail, d, 1));
        while k < n
            invariant
                self.shaped(),
                bound == Coord(self.height, self.width),
                n == self.seg_len(),
                1 <= k <= n,
                cur == as_coord(line_point(tail, d, k - 1)),
                seg@ == line_segment(tail, d, k as nat),
                forall|j: int|
                    0 <= j < k ==> {
                        let p = #[trigger] line_point(tail, d, j);
                        &&& 0 <= p.0 < self.rows()
                        &&& 0 <= p.1 < self.cols()
                        &&& self.cell(as_coord(p)) == YardBlockType::Empty
                    },
            decreases n - k,
        {
            assert(0 <= line_point(tail, d, k - 1).0 < self.rows());
            match cur.move_toward(d, bound) {
                Some(c) => {
                    assert(c == as_coord(line_point(tail, d, k as int)));
                    if self.block_map[c.0][c.1] != YardBlockType::Empty {
                        return None;
                    }
                    seg.push_front(c);
                    assert(seg@ =~= line_segment(tail, d, (k + 1) as nat));
                    cur = c;
                },
                None => {
                    assert(!(0 <= line_point(tail, d, k as int).0 < self.rows() && 0 <= line_point(
                        tail,
                        d,
                        k as int,
                    ).1 < self.cols()));
                    return None;
                },
            }
            k = k + 1;
        }
        Some(seg)
    }

    /// Puts a fresh snake on the field: in the lowest free slot, laid
    /// straight from `tail` in direction `d`, if it fits there. Returns the
    /// slot, or `None` (and changes nothing) when no slot is free or the
    /// snake does not fit.
    pub fn init_snake_at(&mut self, tail: Coord, d: Direction) -> (r: Option<u8>)
        requires
            old(self).wf(),
        ensures
            final(self).wf(),
            r is Some == (old(self).first_free() is Some && old(self).fits(tail, d)),
            r matches Some(i) ==> old(self).first_free() == Some(i as int) && final(self).placed_from(
                old(self),
                i as int,
                tail,
                d,
            ),
            r is None ==> *final(self) == *old(self),
    {
        let id = match self.free_slot() {
            Some(i) => i,
            None => {
                return None;
            },
        };
        match self.lay_segment(tail, d) {
            Some(seg) => {
                proof {
                    self.lemma_free_from(0);
                }
                self.install(id, seg, d, Ghost(tail));
                Some(id)
            },
            None => None,
        }
    }

    proof fn lemma_free_from(&self, i: int)
        requires
            0 <= i <= MAX_PLAYERS,
        ensures
            self.free_from(i) matches Some(j) ==> i <= j < MAX_PLAYERS && !self.live(j),
        decreases MAX_PLAYERS - i,
    {
        if i < MAX_PLAYERS && self.live(i) {
            self.lemma_free_from(i + 1);
        }
    }

    proof fn lemma_line_distinct(tail: Coord, d: Direction, n: nat, rows: usize, cols: usize)
        requires
            forall|k: int|
                0 <= k < n ==> {
                    let p = #[trigger] line_point(tail, d, k);
                    0 <= p.0 < rows && 0 <= p.1 < cols
                },
        ensures
            line_segment(tail, d, n).no_duplicates(),
    {
        let seg = line_segment(tail, d, n);
        assert forall|a: int, b: int| 0 <= a < seg.len() && 0 <= b < seg.len() && a != b implies seg[a]
            != seg[b] by {
            let pa = line_point(tail, d, n - 1 - a);
            let pb = line_point(tail, d, n - 1 - b);
            assert(0 <= pa.0 < rows && 0 <= pa.1 < cols);
            assert(0 <= pb.0 < rows && 0 <= pb.1 < cols);
            assert(seg[a] == as_coord(pa));
            assert(seg[b] == as_coord(pb));
            match d {
                Direction::L => assert(pa.1 != pb.1),
                Direction::R => assert(pa.1 != pb.1),
                Direction::U => assert(pa.0 != pb.0),
                Direction::D => assert(pa.0 != pb.0),
            }
        }
    }

    fn install(&mut self, id: u8, seg: VecDeque<Coord>, d: Direction, Ghost(tail): Ghost<Coord>)
        requires
            old(self).wf(),
            id < MAX_PLAYERS,
            !old(self).live(id as int),
            old(self).fits(tail, d),
            seg@ == line_segment(tail, d, old(self).seg_len()),
        ensures
            final(self).wf(),
            final(self).placed_from(old(self), id as int, tail, d),
    {
        let ghost pre = *self;
        let ghost n = self.seg_len();
        proof {
            YardSim::lemma_line_distinct(tail, d, n, self.height, self.width);
            assert forall|k: int| 0 <= k < n implies #[trigger] self.inside(seg@[k]) && self.cell(seg@[k])
                == YardBlockType::Empty by {
                let p = line_point(tail, d, n - 1 - k);
                assert(seg@[k] == as_coord(p));
            }
        }
        let mut j: usize = 0;
        while j < seg.len()
            invariant
                self.shaped(),
                self.same_config(&pre),
                self.snakes == pre.snakes,
                self.stall_protect == pre.stall_protect,
                self.score == pre.score,
                self.failed == pre.failed,
                self.bonused == pre.bonused,
                self.beans_left == pre.beans_left,
                beans_in_grid(self.block_map@) == beans_in_grid(pre.block_map@),
                seg@.len() == n,
                seg@.no_duplicates(),
                j <= n,
                forall|k: int| 0 <= k < n ==> #[trigger] pre.inside(seg@[k]) && pre.cell(seg@[k]) == YardBlockType::Empty,
                forall|k: int|
                    0 <= k < j ==> #[trigger] self.cell(seg@[k]) == if k == 0 {
                        YardBlockType::Head(id, d)
                    } else {
                        YardBlockType::Body(id)
                    },
                forall|k: int| j <= k < n ==> #[trigger] self.cell(seg@[k]) == YardBlockType::Empty,
                forall|c: Coord| pre.inside(c) && !seg@.contains(c) ==> #[trigger] self.cell(c) == pre.cell(c),
            decreases n - j,
        {
            let c = seg[j];
            let b = if j == 0 { YardBlockType::Head(id, d) } else { YardBlockType::Body(id) };
            let ghost mid = *self;
            proof {
                assert(pre.inside(seg@[j as int]));
            }
            self.set_cell(c, b);
            proof {
                assert forall|k: int| 0 <= k < n && k != j implies #[trigger] self.cell(seg@[k]) == mid.cell(
                    seg@[k],
                ) by {
                    assert(seg@[k] != seg@[j as int]);
                    assert(pre.inside(seg@[k]));
                }
                assert forall|x: Coord| pre.inside(x) && !seg@.contains(x) implies #[trigger] self.cell(x)
                    == pre.cell(x) by {
                    assert(x != seg@[j as int]);
                    assert(mid.cell(x) == pre.cell(x));
                }
            }
            j = j + 1;
        }
        let ghost after = *self;
        self.snakes[id as usize] = Some(Snake(seg, d));
        self.stall_protect[id as usize] = STALL_TICKS;
        proof {
            assert(self.block_map == after.block_map);
            assert(self.segs(id as int) == seg@);
            assert forall|k: int| 0 <= k < n implies #[trigger] self.cell(seg@[k]) == if k == 0 {
                YardBlockType::Head(id, d)
            } else {
                YardBlockType::Body(id)
            } by {
                assert(after.cell(seg@[k]) == self.cell(seg@[k]));
            }
            assert forall|x: Coord| pre.inside(x) && !seg@.contains(x) implies #[trigger] self.cell(x)
                == pre.cell(x) by {
                assert(after.cell(x) == self.cell(x));
            }
            assert forall|i: int| 0 <= i < MAX_PLAYERS implies #[trigger] self.snake_ok(i) by {
                assert(pre.snake_ok(i));
                if i != id && self.live(i) {
                    assert(self.segs(i) == pre.segs(i));
                    assert forall|k: int| 0 <= k < self.segs(i).len() implies #[trigger] self.painted(i, k) by {
                        assert(pre.painted(i, k));
                        let c = pre.segs(i)[k];
                        assert(pre.inside(c));
                        if seg@.contains(c) {
                            let q = choose|q: int| 0 <= q < n && seg@[q] == c;
                            assert(pre.cell(seg@[q]) == YardBlockType::Empty);
                        }
                        assert(self.cell(c) == pre.cell(c));
                    }
                    assert forall|k: int| 0 <= k < self.segs(i).len() implies self.inside(#[trigger] self.segs(i)[k]) by {
                        assert(pre.inside(pre.segs(i)[k]));
                    }
                }
                if i == id {
                    assert forall|k: int| 0 <= k < self.segs(i).len() implies #[trigger] self.painted(i, k) by {
                    }
                    assert forall|k: int| 0 <= k < self.segs(i).len() implies self.inside(#[trigger] self.segs(i)[k]) by {
                        assert(pre.inside(seg@[k]));
                    }
                }
            }
            assert forall|c: Coord| #[trigger] self.occupant_ok(c) by {
                assert(pre.occupant_ok(c));
                if self.inside(c) {
                    if seg@.contains(c) {
                        let q = choose|q: int| 0 <= q < n && seg@[q] == c;
                        assert(self.cell(seg@[q]) == if q == 0 {
                            YardBlockType::Head(id, d)
                        } else {
                            YardBlockType::Body(id)
                        });
                    } else {
                        assert(self.cell(c) == pre.cell(c));
                        if owner_of(pre.cell(c)) is Some {
                            let o = owner_of(pre.cell(c))->0;
                            assert(o != id);
                            assert(self.segs(o) == pre.segs(o));
                        }
                    }
                }
            }
            assert forall|j: int| 0 <= j < MAX_PLAYERS implies #[trigger] self.is_failed(j) == pre.is_failed(j) by {}
            assert forall|j: int| 0 <= j < MAX_PLAYERS implies #[trigger] self.bonus(j) == pre.bonus(j) by {}
            assert forall|j: int| 0 <= j < MAX_PLAYERS && j != id implies #[trigger] self.same_slot(&pre, j) by {
            }
            assert forall|i: int| 0 <= i < MAX_PLAYERS implies #[trigger] self.idle_ok(i) by {
                assert(pre.idle_ok(i));
            }
        }
        proof {
            self.lemma_bean_cells();
        }
    }

    /// Puts a fresh snake on the field in the lowest free slot, laid from a
    /// random tail in a random direction, drawing again while it does not fit
    /// (after `RANDOM_TRIES` draws every tail and direction is tried in
    /// turn). Returns the slot, or `None` (and changes nothing) when no slot
    /// is free or the snake fits nowhere.
    pub fn init_snake(&mut self) -> (r: Option<u8>)
        requires
            old(self).wf(),
        ensures
            final(self).wf(),
            r is Some == (old(self).first_free() is Some && exists|t: Coord, d: Direction|
                old(self).fits(t, d)),
            r matches Some(i) ==> old(self).first_free() == Some(i as int) && exists|t: Coord, d: Direction|
                old(self).fits(t, d) && final(self).placed_from(old(self), i as int, t, d),
            r is None ==> *final(self) == *old(self),
    {
        if self.free_slot().is_none() {
            return None;
        }
        if self.height > 0 && self.width > 0 {
            let bound = Coord(self.height, self.width);
            let mut k: usize = 0;
            while k < RANDOM_TRIES
                invariant
                    self.wf(),
                    *self == *old(self),
                    bound == Coord(self.height, self.width),
                    self.height > 0,
                    self.width > 0,
                    self.first_free() is Some,
                decreases RANDOM_TRIES - k,
            {
                let tail = bound.rand_inside();
                let d = random_direction();
                match self.init_snake_at(tail, d) {
                    Some(i) => {
                        return Some(i);
                    },
                    None => {},
                }
                k = k + 1;
            }
        }
        let dirs: [Direction; 4] = [Direction::L, Direction::R, Direction::U, Direction::D];
        let mut r: usize = 0;
        while r < self.height
            invariant
                self.wf(),
                *self == *old(self),
                r <= self.height,
                self.first_free() is Some,
                dirs@ == seq![Direction::L, Direction::R, Direction::U, Direction::D],
                forall|t: Coord, d: Direction| t.0 < r ==> !#[trigger] self.fits(t, d),
            decreases self.height - r,
        {
            let mut c: usize = 0;
            while c < self.width
                invariant
                    self.wf(),
                    *self == *old(self),
                    r < self.height,
                    c <= self.width,
                    self.first_free() is Some,
                    dirs@ == seq![Direction::L, Direction::R, Direction::U, Direction::D],
                    forall|t: Coord, d: Direction| t.0 < r ==> !#[trigger] self.fits(t, d),
                    forall|t: Coord, d: Direction| t.0 == r && t.1 < c ==> !#[trigger] self.fits(t, d),
                decreases self.width - c,
            {
                let mut q: usize = 0;
                while q < 4
                    invariant
                        self.wf(),
                        *self == *old(self),
                        r < self.height,
                        c < self.width,
                        q <= 4,
                        self.first_free() is Some,
                        dirs@ == seq![Direction::L, Direction::R, Direction::U, Direction::D],
                        forall|t: Coord, d: Direction| t.0 < r ==> !#[trigger] self.fits(t, d),
                        forall|t: Coord, d: Direction| t.0 == r && t.1 < c ==> !#[trigger] self.fits(t, d),
                        forall|p: int| 0 <= p < q ==> !#[trigger] self.fits(Coord(r, c), dirs@[p]),
                    decreases 4 - q,
                {
                    match self.init_snake_at(Coord(r, c), dirs[q]) {
                        Some(i) => {
                            return Some(i);
                        },
                        None => {},
                    }
                    q = q + 1;
                }
                assert forall|t: Coord, d: Direction| t.0 == r && t.1 < c + 1 implies !#[trigger] self.fits(t, d) by {
                    if t.1 == c {
                        assert(t == Coord(r, c));
                        match d {
                            Direction::L => assert(!self.fits(Coord(r, c), dirs@[0])),
                            Direction::R => assert(!self.fits(Coord(r, c), dirs@[1])),
                            Direction::U => assert(!self.fits(Coord(r, c), dirs@[2])),
                            Direction::D => assert(!self.fits(Coord(r, c), dirs@[3])),
                        }
                    }
                }
                c = c + 1;
            }
            assert forall|t: Coord, d: Direction| t.0 < r + 1 implies !#[trigger] self.fits(t, d) by {
                if t.0 == r && t.1 >= self.width {
                    assert(line_point(t, d, 0) == (t.0 as int, t.1 as int));
                }
            }
            r = r + 1;
        }
        assert forall|t: Coord, d: Direction| !#[trigger] self.fits(t, d) by {
            if t.0 >= self.height {
                assert(line_point(t, d, 0) == (t.0 as int, t.1 as int));
            }
        }
        None
    }

    /// The direction painted at the head cell of slot `i`, if the head cell
    /// holds that slot's `Head`.
    pub open spec fn head_dir(&self, i: int) -> Option<Direction> {
        match self.cell(self.segs(i)[0]) {
            YardBlockType::Head(o, hd) => if o == i {
                Some(hd)
            } else {
                None
            },
            _ => None,
        }
    }

    /// A live snake in slot `i` may be steered toward `d`: `d` does not
    /// reverse the direction painted at its head.
    pub open spec fn turn_accepted(&self, i: int, d: Direction) -> bool {
        &&& self.live(i)
        &&& self.head_dir(i) matches Some(hd)
        &&& d != opposite_of(hd)
    }

    /// `self` is `old` with slot `i` steered toward `d` if the turn is
    /// accepted; nothing else differs.
    pub open spec fn steered_from(&self, old: &YardSim, i: int, d: Direction) -> bool {
        &&& self.heading(i) == if old.turn_accepted(i, d) {
            d
        } else {
            old.heading(i)
        }
        &&& self.live(i) == old.live(i)
        &&& self.segs(i) == old.segs(i)
        &&& self.stall(i) == old.stall(i)
        &&& self.score(i) == old.score(i)
        &&& self.same_config(old)
        &&& self.beans() == old.beans()
        &&& forall|c: Coord| #[trigger] self.cell(c) == old.cell(c)
        &&& forall|j: int| 0 <= j < MAX_PLAYERS && j != i ==> #[trigger] self.same_slot(old, j)
    }

    /// Steers the snake in slot `id` toward `d`, unless `d` reverses the
    /// direction painted at its head. `None` when the slot holds no snake.
    pub fn control_snake(&mut self, id: u8, d: Direction) -> (r: Option<()>)
        requires
            old(self).wf(),
            id < MAX_PLAYERS,
        ensures
            final(self).wf(),
            r is Some == old(self).live(id as int),
            final(self).steered_from(old(self), id as int, d),
    {
        let i = id as usize;
        proof {
            assert(self.snake_ok(i as int));
        }
        let head = match &self.snakes[i] {
            Some(s) => s.0[0],
            None => {
                return None;
            },
        };
        proof {
            assert(self.snake_ok(i as int));
            assert(self.inside(self.segs(i as int)[0]));
        }
        match self.block_map[head.0][head.1] {
            YardBlockType::Head(bid, cur_dir) => {
                if bid == id && d != cur_dir.opposite() {
                    let ghost pre = *self;
                    let mut s = self.snakes[i].take().unwrap();
                    s.1 = d;
                    self.snakes[i] = Some(s);
                    proof {
                        assert(self.segs(i as int) == pre.segs(i as int));
                        assert forall|j: int| 0 <= j < MAX_PLAYERS implies #[trigger] self.snake_ok(j) by {
                            assert(pre.snake_ok(j));
                            if self.live(j) {
                                assert(self.segs(j) == pre.segs(j));
                                assert forall|k: int| 0 <= k < self.segs(j).len() implies #[trigger] self.painted(j, k) by {
                                    assert(pre.painted(j, k));
                                }
                            }
                        }
                        assert forall|c: Coord| #[trigger] self.occupant_ok(c) by {
                            assert(pre.occupant_ok(c));
                            if self.inside(c) && owner_of(self.cell(c)) is Some {
                                let o = owner_of(self.cell(c))->0;
                                assert(self.segs(o) == pre.segs(o));
                            }
                        }
                        assert forall|j: int| 0 <= j < MAX_PLAYERS implies #[trigger] self.is_failed(j) == pre.is_failed(j) by {}
                        assert forall|j: int| 0 <= j < MAX_PLAYERS implies #[trigger] self.bonus(j) == pre.bonus(j) by {}
                        assert forall|j: int| 0 <= j < MAX_PLAYERS && j != id implies #[trigger] self.same_slot(&pre, j) by {
                        }
                        assert forall|j: int| 0 <= j < MAX_PLAYERS implies #[trigger] self.idle_ok(j) by {
                            assert(pre.idle_ok(j));
                        }
                    }
                }
            },
            _ => {},
        }
        proof {
            self.lemma_bean_cells();
        }
        Some(())
    }

    /// The committed score of slot `id`.
    pub fn get_score_of(&self, id: u8) -> (r: usize)
        requires
            self.consistent(),
            id < MAX_PLAYERS,
        ensures
            r == self.score(id as int),
    {
        self.score[id as usize]
    }

    /// Slot `j` keeps its snake's presence, direction, protection and score.
    pub open spec fn keeps_slot(&self, old: &YardSim, j: int) -> bool {
        &&& self.live(j) == old.live(j)
        &&& self.heading(j) == old.heading(j)
        &&& self.stall(j) == old.stall(j)
        &&& self.score(j) == old.score(j)
    }

    pub open spec fn keeps_slots(&self, old: &YardSim) -> bool {
        forall|j: int| 0 <= j < MAX_PLAYERS ==> #[trigger] self.keeps_slot(old, j)
    }

    /// Every slot but `i` keeps its cells.
    pub open spec fn keeps_segs_except(&self, old: &YardSim, i: int) -> bool {
        forall|j: int| 0 <= j < MAX_PLAYERS && j != i ==> #[trigger] self.segs(j) == old.segs(j)
    }

    /// Slot `to` has won `amount` more bonus (saturating); the others keep
    /// theirs.
    pub open spec fn bonus_after(&self, old: &YardSim, to: int, amount: usize) -> bool {
        forall|j: int|
            0 <= j < MAX_PLAYERS ==> #[trigger] self.bonus(j) == if j == to {
                old.bonus(j).saturating_add(amount)
            } else {
                old.bonus(j)
            }
    }

    /// Slots `a` and `b` are marked failed; the others keep their mark.
    pub open spec fn failed_after(&self, old: &YardSim, a: int, b: int) -> bool {
        forall|j: int| 0 <= j < MAX_PLAYERS ==> #[trigger] self.is_failed(j) == (j == a || j == b || old.is_failed(j))
    }

    /// Every cell but `x`, `y` and `z` keeps its block.
    pub open spec fn cells_keep_except(&self, old: &YardSim, x: Coord, y: Coord, z: Coord) -> bool {
        forall|c: Coord| self.inside(c) && c != x && c != y && c != z ==> #[trigger] self.cell(c) == old.cell(c)
    }

    /// The move of the live, unprotected snake in slot `i` during a tick.
    /// Its head `h` steps in its direction `d`. Leaving the field marks it
    /// failed. Otherwise `h` is repainted as its body and the destination is
    /// classified before it is entered: an empty cell is entered and the tail
    /// left; a bean is entered and eaten (one bonus point, the snake grows);
    /// another snake's body marks this one failed and gives its whole score
    /// as bonus to that body's owner; a head of slot `o` marks this one failed
    /// and gives its score to `o` when `i < o`, and otherwise marks both
    /// failed, unless `o` was protected when the tick began (`prot[o]`):
    /// a protected snake is immune, so only this one fails.
    pub open spec fn moved_from(&self, old: &YardSim, i: int, prot: Seq<bool>) -> bool {
        let segs = old.segs(i);
        let h = segs[0];
        let d = old.heading(i);
        &&& self.same_config(old)
        &&& self.keeps_slots(old)
        &&& match step_within(h, d, old.bounds()) {
            None => {
                &&& self.keeps_segs_except(old, -1)
                &&& self.bonus_after(old, -1, 0)
                &&& self.failed_after(old, i, i)
                &&& self.cells_keep_except(old, h, h, h)
                &&& self.cell(h) == old.cell(h)
                &&& self.beans() == old.beans()
            },
            Some(nh) => {
                &&& self.cell(h) == YardBlockType::Body(i as u8) || (segs.len() == 1 && old.cell(nh)
                    is Empty)
                &&& match old.cell(nh) {
                    YardBlockType::Empty => {
                        let tail = segs.last();
                        &&& self.segs(i) == seq![nh] + segs.drop_last()
                        &&& self.keeps_segs_except(old, i)
                        &&& self.bonus_after(old, -1, 0)
                        &&& self.failed_after(old, -1, -1)
                        &&& self.cell(nh) == YardBlockType::Head(i as u8, d)
                        &&& self.cell(tail) == YardBlockType::Empty
                        &&& self.cells_keep_except(old, h, nh, tail)
                        &&& self.beans() == old.beans()
                    },
                    YardBlockType::Bean => {
                        &&& self.segs(i) == seq![nh] + segs
                        &&& self.keeps_segs_except(old, i)
                        &&& self.bonus_after(old, i, 1)
                        &&& self.failed_after(old, -1, -1)
                        &&& self.cell(nh) == YardBlockType::Head(i as u8, d)
                        &&& self.cells_keep_except(old, h, nh, nh)
                        &&& self.beans() == old.beans() - 1
                    },
                    YardBlockType::Body(o) => {
                        &&& self.keeps_segs_except(old, -1)
                        &&& self.bonus_after(old, o as int, old.score(i))
                        &&& self.failed_after(old, i, i)
                        &&& self.cells_keep_except(old, h, h, h)
                        &&& self.beans() == old.beans()
                    },
                    YardBlockType::Head(o, _) => {
                        &&& self.keeps_segs_except(old, -1)
                        &&& self.cells_keep_except(old, h, h, h)
                        &&& self.beans() == old.beans()
                        &&& if i < o {
                            &&& self.bonus_after(old, o as int, old.score(i))
                            &&& self.failed_after(old, i, i)
                        } else if prot[o as int] {
                            &&& self.bonus_after(old, -1, 0)
                            &&& self.failed_after(old, i, i)
                        } else {
                            &&& self.bonus_after(old, -1, 0)
                            &&& self.failed_after(old, i, o as int)
                        }
                    },
                }
            },
        }
    }

    /// Slot `i` spends one tick of its protection; nothing else changes.
    pub open spec fn ticked_down(&self, old: &YardSim, i: int) -> bool {
        &&& self.same_config(old)
        &&& self.beans() == old.beans()
        &&& forall|c: Coord| #[trigger] self.cell(c) == old.cell(c)
        &&& forall|j: int| 0 <= j < MAX_PLAYERS && j != i ==> #[trigger] self.same_slot(old, j)
        &&& self.stall(i) == old.stall(i) - 1
        &&& self.live(i) == old.live(i)
        &&& self.segs(i) == old.segs(i)
        &&& self.heading(i) == old.heading(i)
        &&& self.score(i) == old.score(i)
        &&& self.bonus(i) == old.bonus(i)
        &&& self.is_failed(i) == old.is_failed(i)
    }

    /// What the tick does to slot `i`: a protected slot counts down, an
    /// empty one stays as it is, a live one moves. `prot` tells which slots
    /// were protected when the tick began.
    pub open spec fn stepped_from(&self, old: &YardSim, i: int, prot: Seq<bool>) -> bool {
        if old.stall(i) > 0 {
            self.ticked_down(old, i)
        } else if !old.live(i) {
            *self == *old
        } else {
            self.moved_from(old, i, prot)
        }
    }

    /// Which slots are under stall protection.
    pub open spec fn protection(&self) -> Seq<bool> {
        Seq::new(MAX_PLAYERS as nat, |j: int| self.stall(j) > 0)
    }

    proof fn lemma_seg_owner(&self, i: int, k: int)
        requires
            self.consistent(),
            0 <= i < MAX_PLAYERS,
            self.live(i),
            0 <= k < self.segs(i).len(),
        ensures
            owner_of(self.cell(self.segs(i)[k])) == Some(i),
            self.inside(self.segs(i)[k]),
    {
        assert(self.snake_ok(i));
        assert(self.painted(i, k));
    }

    /// A state with the field and the snakes of a consistent state, no
    /// failure mark lifted, and nothing pending on a free slot, is consistent.
    proof fn lemma_same_field(&self, old: &YardSim)
        requires
            old.consistent(),
            self.same_config(old),
            self.beans_left == old.beans_left,
            self.block_map == old.block_map,
            self.snakes == old.snakes,
            self.stall_protect@.len() == MAX_PLAYERS,
            self.score@.len() == MAX_PLAYERS,
            self.failed@.len() == MAX_PLAYERS,
            self.bonused@.len() == MAX_PLAYERS,
            forall|i: int| 0 <= i < MAX_PLAYERS && old.is_failed(i) ==> #[trigger] self.is_failed(i),
            forall|i: int| 0 <= i < MAX_PLAYERS && old.idle_ok(i) ==> #[trigger] self.idle_ok(i),
        ensures
            self.consistent(),
    {
        assert forall|i: int| 0 <= i < MAX_PLAYERS implies #[trigger] self.snake_ok(i) by {
            assert(old.snake_ok(i));
            if self.live(i) {
                assert forall|k: int| 0 <= k < self.segs(i).len() implies #[trigger] self.painted(i, k) by {
                    assert(old.painted(i, k));
                }
            }
        }
        assert forall|c: Coord| #[trigger] self.occupant_ok(c) by {
            assert(old.occupant_ok(c));
        }
        assert forall|j: int| 0 <= j < MAX_PLAYERS implies #[trigger] self.idle_ok(j) by {
            assert(old.idle_ok(j));
        }
    }

    /// Marks slot `j` failed.
    fn mark_failed(&mut self, j: u8)
        requires
            old(self).consistent(),
            j < MAX_PLAYERS,
            old(self).live(j as int),
        ensures
            final(self).consistent(),
            final(self).block_map == old(self).block_map,
            final(self).beans_left == old(self).beans_left,
            final(self).same_config(old(self)),
            final(self).keeps_slots(old(self)),
            final(self).keeps_segs_except(old(self), -1),
            final(self).bonus_after(old(self), -1, 0),
            final(self).failed_after(old(self), j as int, j as int),
    {
        let ghost pre = *self;
        self.failed[j as usize] = true;
        proof {
            self.lemma_same_field(&pre);
        }
    }

    /// Gives slot `j` `amount` more bonus, saturating.
    fn add_bonus(&mut self, j: u8, amount: usize)
        requires
            old(self).consistent(),
            j < MAX_PLAYERS,
            old(self).live(j as int),
        ensures
            final(self).consistent(),
            final(self).block_map == old(self).block_map,
            final(self).beans_left == old(self).beans_left,
            final(self).same_config(old(self)),
            final(self).keeps_slots(old(self)),
            final(self).keeps_segs_except(old(self), -1),
            final(self).bonus_after(old(self), j as int, amount),
            final(self).failed_after(old(self), -1, -1),
    {
        let ghost pre = *self;
        self.bonused[j as usize] = self.bonused[j as usize].saturating_add(amount);
        proof {
            self.lemma_same_field(&pre);
        }
    }

    /// Repaints the head of the live snake in slot `id` as its body and marks
    /// the slot failed: its move was refused.
    fn crash(&mut self, id: u8)
        requires
            old(self).consistent(),
            id < MAX_PLAYERS,
            old(self).live(id as int),
        ensures
            final(self).consistent(),
            final(self).same_config(old(self)),
            final(self).keeps_slots(old(self)),
            final(self).keeps_segs_except(old(self), -1),
            final(self).bonus_after(old(self), -1, 0),
            final(self).failed_after(old(self), id as int, id as int),
            final(self).cell(old(self).segs(id as int)[0]) == YardBlockType::Body(id),
            final(self).cells_keep_except(
                old(self),
                old(self).segs(id as int)[0],
                old(self).segs(id as int)[0],
                old(self).segs(id as int)[0],
            ),
            final(self).beans() == old(self).beans(),
    {
        let ghost pre = *self;
        let i = id as usize;
        proof {
            assert(self.snake_ok(i as int));
            self.lemma_seg_owner(i as int, 0);
        }
        let head = match &self.snakes[i] {
            Some(s) => s.0[0],
            None => {
                return;
            },
        };
        self.set_cell(head, YardBlockType::Body(id));
        let ghost mid = *self;
        self.failed[i] = true;
        proof {
            let h = pre.segs(i as int)[0];
            assert(self.block_map == mid.block_map);
            assert forall|c: Coord| self.inside(c) && c != h implies #[trigger] self.cell(c) == pre.cell(c) by {
                assert(mid.cell(c) == pre.cell(c));
            }
            assert(self.cell(h) == mid.cell(h));
            assert forall|j: int| 0 <= j < MAX_PLAYERS implies #[trigger] self.snake_ok(j) by {
                assert(pre.snake_ok(j));
                if self.live(j) {
                    assert forall|k: int| 0 <= k < self.segs(j).len() implies #[trigger] self.painted(j, k) by {
                        assert(pre.painted(j, k));
                        pre.lemma_seg_owner(j, k);
                        if j != i {
                            assert(pre.segs(j)[k] != h);
                        } else if k != 0 {
                            assert(pre.segs(j)[k] != h);
                        }
                    }
                }
            }
            assert forall|c: Coord| #[trigger] self.occupant_ok(c) by {
                assert(pre.occupant_ok(c));
                if self.inside(c) && c == h {
                    assert(pre.segs(i as int).contains(h));
                }
            }
            assert forall|j: int| 0 <= j < MAX_PLAYERS implies #[trigger] self.idle_ok(j) by {
                assert(pre.idle_ok(j));
            }
        }
    }

    /// The live snake in slot `id` enters the empty or bean cell `nh` next
    /// to its head: the old head becomes body and `nh` its head. On an empty
    /// cell the tail is left behind; on a bean the snake grows and earns a
    /// bonus point.
    fn advance(&mut self, id: u8, nh: Coord)
        requires
            old(self).consistent(),
            id < MAX_PLAYERS,
            old(self).live(id as int),
            old(self).inside(nh),
            old(self).cell(nh) is Empty || old(self).cell(nh) is Bean,
        ensures
            final(self).consistent(),
            final(self).same_config(old(self)),
            final(self).keeps_slots(old(self)),
            final(self).keeps_segs_except(old(self), id as int),
            final(self).failed_after(old(self), -1, -1),
            final(self).cell(nh) == YardBlockType::Head(id, old(self).heading(id as int)),
            old(self).cell(nh) is Empty ==> {
                let segs = old(self).segs(id as int);
                &&& final(self).segs(id as int) == seq![nh] + segs.drop_last()
                &&& final(self).bonus_after(old(self), -1, 0)
                &&& final(self).cell(segs.last()) == YardBlockType::Empty
                &&& final(self).cells_keep_except(old(self), segs[0], nh, segs.last())
                &&& final(self).beans() == old(self).beans()
                &&& (final(self).cell(segs[0]) == YardBlockType::Body(id) || segs.len() == 1)
            },
            old(self).cell(nh) is Bean ==> {
                let segs = old(self).segs(id as int);
                &&& final(self).segs(id as int) == seq![nh] + segs
                &&& final(self).bonus_after(old(self), id as int, 1)
                &&& final(self).cells_keep_except(old(self), segs[0], nh, nh)
                &&& final(self).beans() == old(self).beans() - 1
                &&& final(self).cell(segs[0]) == YardBlockType::Body(id)
            },
    {
        let ghost pre = *self;
        let ghost segs = pre.segs(id as int);
        let ghost n = segs.len();
        let i = id as usize;
        let eat = self.block_map[nh.0][nh.1] == YardBlockType::Bean;
        proof {
            assert(self.snake_ok(i as int));
            self.lemma_seg_owner(i as int, 0);
            self.lemma_seg_owner(i as int, n - 1);
            assert(!segs.contains(nh)) by {
                if segs.contains(nh) {
                    let q = choose|q: int| 0 <= q < n && segs[q] == nh;
                    self.lemma_seg_owner(i as int, q);
                }
            }
        }
        let s = self.snakes[i].take().unwrap();
        let mut body = s.0;
        let d = s.1;
        let head = body[0];
        self.set_cell(head, YardBlockType::Body(id));
        let ghost s1 = *self;
        self.set_cell(nh, YardBlockType::Head(id, d));
        let ghost s2 = *self;
        body.push_front(nh);
        if eat {
            self.bonused[i] = self.bonused[i].saturating_add(1);
            self.beans_left = self.beans_left - 1;
        } else {
            let tail = body.pop_back().unwrap();
            self.set_cell(tail, YardBlockType::Empty);
        }
        let ghost s3 = *self;
        self.snakes[i] = Some(Snake(body, d));
        proof {
            let h = segs[0];
            let t = segs.last();
            assert(self.block_map == s3.block_map);
            assert(self.segs(i as int) == body@);
            assert forall|x: Coord| #[trigger] self.cell(x) == s3.cell(x) by {}
            // cells of the other snakes are none of h, nh, t
            assert forall|j: int, k: int|
                0 <= j < MAX_PLAYERS && j != i && pre.live(j) && 0 <= k < pre.segs(j).len() implies {
                let c = #[trigger] pre.segs(j)[k];
                c != h && c != nh && c != t && self.cell(c) == pre.cell(c)
            } by {
                pre.lemma_seg_owner(j, k);
                let c = pre.segs(j)[k];
                assert(s1.cell(c) == pre.cell(c));
                assert(s2.cell(c) == s1.cell(c));
                if !eat {
                    assert(s3.cell(c) == s2.cell(c));
                }
            }
            if eat {
                assert(body@ == seq![nh] + segs);
                assert(self.cell(h) == YardBlockType::Body(id)) by {
                    assert(s2.cell(h) == s1.cell(h));
                }
                assert(self.cell(nh) == YardBlockType::Head(id, d));
                assert forall|c: Coord| self.inside(c) && c != h && c != nh implies #[trigger] self.cell(c)
                    == pre.cell(c) by {
                    assert(s1.cell(c) == pre.cell(c));
                    assert(s2.cell(c) == s1.cell(c));
                }
                assert(body@.no_duplicates()) by {
                    assert forall|a: int, b: int| 0 <= a < body@.len() && 0 <= b < body@.len() && a != b implies body@[a]
                        != body@[b] by {
                        if a > 0 && b > 0 {
                            assert(body@[a] == segs[a - 1]);
                            assert(body@[b] == segs[b - 1]);
                        } else if a == 0 {
                            assert(body@[b] == segs[b - 1]);
                        } else {
                            assert(body@[a] == segs[a - 1]);
                        }
                    }
                }
                assert forall|k: int| 0 <= k < body@.len() implies #[trigger] self.painted(i as int, k) && self.inside(body@[k]) by {
                    if k > 0 {
                        pre.lemma_seg_owner(i as int, k - 1);
                        assert(pre.painted(i as int, k - 1));
                        assert(body@[k] == segs[k - 1]);
                        if k > 1 {
                            assert(segs[k - 1] != h);
                        }
                    }
                }
                assert(self.beans_left == beans_in_grid(self.block_map@));
            } else {
                assert(body@ == (seq![nh] + segs).subrange(0, n as int));
                assert(body@ =~= seq![nh] + segs.drop_last());
                assert(s3.cell(t) == YardBlockType::Empty);
                assert forall|c: Coord| self.inside(c) && c != h && c != nh && c != t implies #[trigger] self.cell(c)
                    == pre.cell(c) by {
                    assert(s1.cell(c) == pre.cell(c));
                    assert(s2.cell(c) == s1.cell(c));
                    assert(s3.cell(c) == s2.cell(c));
                }
                if n > 1 {
                    assert(h != t);
                    assert(self.cell(h) == YardBlockType::Body(id)) by {
                        assert(s2.cell(h) == s1.cell(h));
                        assert(s3.cell(h) == s2.cell(h));
                    }
                }
                assert(self.cell(nh) == YardBlockType::Head(id, d)) by {
                    assert(s3.cell(nh) == s2.cell(nh));
                }
                assert(body@.no_duplicates()) by {
                    assert forall|a: int, b: int| 0 <= a < body@.len() && 0 <= b < body@.len() && a != b implies body@[a]
                        != body@[b] by {
                        if a > 0 && b > 0 {
                            assert(body@[a] == segs[a - 1]);
                            assert(body@[b] == segs[b - 1]);
                        } else if a == 0 {
                            assert(body@[b] == segs[b - 1]);
                        } else {
                            assert(body@[a] == segs[a - 1]);
                        }
                    }
                }
                assert forall|k: int| 0 <= k < body@.len() implies #[trigger] self.painted(i as int, k) && self.inside(body@[k]) by {
                    if k > 0 {
                        pre.lemma_seg_owner(i as int, k - 1);
                        assert(pre.painted(i as int, k - 1));
                        assert(body@[k] == segs[k - 1]);
                        assert(segs[k - 1] != t);
                        if k > 1 {
                            assert(segs[k - 1] != h);
                        }
                    }
                }
            }
            assert forall|j: int| 0 <= j < MAX_PLAYERS implies #[trigger] self.snake_ok(j) by {
                assert(pre.snake_ok(j));
                if j != i && self.live(j) {
                    assert(self.segs(j) == pre.segs(j));
                    assert forall|k: int| 0 <= k < self.segs(j).len() implies #[trigger] self.painted(j, k) by {
                        assert(pre.painted(j, k));
                        assert(self.cell(pre.segs(j)[k]) == pre.cell(pre.segs(j)[k]));
                    }
                }
            }
            assert forall|c: Coord| #[trigger] self.occupant_ok(c) by {
                assert(pre.occupant_ok(c));
                if self.inside(c) && owner_of(self.cell(c)) is Some {
                    if c == nh {
                        assert(body@[0] == nh);
                    } else if c == h && (eat || n > 1) {
                        assert(body@[1] == h);
                    } else if !eat && c == t {
                    } else {
                        assert(self.cell(c) == pre.cell(c));
                        let o = owner_of(pre.cell(c))->0;
                        if o == i {
                            let q = choose|q: int| 0 <= q < n && segs[q] == c;
                            assert(body@[q + 1] == c);
                        }
                    }
                }
            }
            assert forall|j: int| 0 <= j < MAX_PLAYERS implies #[trigger] self.keeps_slot(&pre, j) by {}
            assert forall|j: int| 0 <= j < MAX_PLAYERS implies #[trigger] self.idle_ok(j) by {
                assert(pre.idle_ok(j));
            }
        }
    }

    /// One slot's part of a tick: see `stepped_from`.
    fn move_slot(&mut self, id: u8, prot: &Vec<bool>)
        requires
            old(self).consistent(),
            id < MAX_PLAYERS,
            prot@.len() == MAX_PLAYERS,
        ensures
            final(self).consistent(),
            final(self).stepped_from(old(self), id as int, prot@),
    {
        let ghost pre = *self;
        let i = id as usize;
        if self.stall_protect[i] > 0 {
            self.stall_protect[i] = self.stall_protect[i] - 1;
            proof {
                self.lemma_same_field(&pre);
                assert forall|j: int| 0 <= j < MAX_PLAYERS && j != i implies #[trigger] self.same_slot(&pre, j) by {}
            }
            return;
        }
        proof {
            assert(self.snake_ok(i as int));
        }
        let (head, d) = match &self.snakes[i] {
            Some(s) => (s.0[0], s.1),
            None => {
                return;
            },
        };
        proof {
            self.lemma_seg_owner(i as int, 0);
        }
        match head.move_toward(d, Coord(self.height, self.width)) {
            None => {
                self.mark_failed(id);
                proof {
                    assert forall|c: Coord| self.inside(c) implies #[trigger] self.cell(c) == pre.cell(c) by {}
                }
            },
            Some(nh) => {
                let target = self.block_map[nh.0][nh.1];
                match target {
                    YardBlockType::Empty => {
                        self.advance(id, nh);
                    },
                    YardBlockType::Bean => {
                        self.advance(id, nh);
                    },
                    YardBlockType::Body(o) => {
                        proof {
                            assert(self.occupant_ok(nh));
                        }
                        let gain = self.score[i];
                        self.crash(id);
                        let ghost s1 = *self;
                        proof {
                            assert(self.keeps_slot(&pre, o as int));
                        }
                        self.add_bonus(o, gain);
                        proof {
                            assert forall|c: Coord| #[trigger] self.cell(c) == s1.cell(c) by {}
                            assert forall|j: int| 0 <= j < MAX_PLAYERS implies #[trigger] self.keeps_slot(&pre, j) by {
                                assert(s1.keeps_slot(&pre, j));
                                assert(self.keeps_slot(&s1, j));
                            }
                            assert forall|j: int| 0 <= j < MAX_PLAYERS implies #[trigger] self.is_failed(j) == (j == i
                                || pre.is_failed(j)) by {
                                assert(s1.is_failed(j) == (j == i || pre.is_failed(j)));
                            }
                            assert forall|j: int| 0 <= j < MAX_PLAYERS implies #[trigger] self.segs(j) == pre.segs(j) by {
                                assert(s1.segs(j) == pre.segs(j));
                            }
                            assert forall|j: int| 0 <= j < MAX_PLAYERS implies #[trigger] self.bonus(j) == if j == o {
                                pre.bonus(j).saturating_add(gain)
                            } else {
                                pre.bonus(j)
                            } by {
                                assert(s1.bonus(j) == pre.bonus(j));
                            }
                        }
                    },
                    YardBlockType::Head(o, _) => {
                        proof {
                            assert(self.occupant_ok(nh));
                        }
                        let gain = self.score[i];
                        self.crash(id);
                        let ghost s1 = *self;
                        proof {
                            assert(self.keeps_slot(&pre, o as int));
                        }
                        if id < o {
                            self.add_bonus(o, gain);
                            proof {
                                assert forall|j: int| 0 <= j < MAX_PLAYERS implies #[trigger] self.is_failed(j) == (j
                                    == i || pre.is_failed(j)) by {
                                    assert(s1.is_failed(j) == (j == i || pre.is_failed(j)));
                                }
                                assert forall|j: int| 0 <= j < MAX_PLAYERS implies #[trigger] self.bonus(j) == if j == o {
                                    pre.bonus(j).saturating_add(gain)
                                } else {
                                    pre.bonus(j)
                                } by {
                                    assert(s1.bonus(j) == pre.bonus(j));
                                }
                            }
                        } else if prot[o as usize] {
                            proof {
                                assert forall|j: int| 0 <= j < MAX_PLAYERS implies #[trigger] self.is_failed(j) == (j
                                    == i || pre.is_failed(j)) by {
                                    assert(s1.is_failed(j) == (j == i || pre.is_failed(j)));
                                }
                                assert forall|j: int| 0 <= j < MAX_PLAYERS implies #[trigger] self.bonus(j) == pre.bonus(j) by {
                                    assert(s1.bonus(j) == pre.bonus(j));
                                }
                            }
                        } else {
                            self.mark_failed(o);
                            proof {
                                assert forall|j: int| 0 <= j < MAX_PLAYERS implies #[trigger] self.is_failed(j) == (j
                                    == i || j == o || pre.is_failed(j)) by {
                                    assert(s1.is_failed(j) == (j == i || pre.is_failed(j)));
                                }
                                assert forall|j: int| 0 <= j < MAX_PLAYERS implies #[trigger] self.bonus(j) == pre.bonus(j) by {
                                    assert(s1.bonus(j) == pre.bonus(j));
                                }
                            }
                        }
                        proof {
                            assert forall|c: Coord| #[trigger] self.cell(c) == s1.cell(c) by {}
                            assert forall|j: int| 0 <= j < MAX_PLAYERS implies #[trigger] self.keeps_slot(&pre, j) by {
                                assert(s1.keeps_slot(&pre, j));
                                assert(self.keeps_slot(&s1, j));
                            }
                            assert forall|j: int| 0 <= j < MAX_PLAYERS implies #[trigger] self.segs(j) == pre.segs(j) by {
                                assert(s1.segs(j) == pre.segs(j));
                            }
                        }
                    },
                }
            },
        }
    }

    /// Which slots are under stall protection now.
    fn protected_slots(&self) -> (r: Vec<bool>)
        requires
            self.consistent(),
        ensures
            r@ == self.protection(),
    {
        let mut r: Vec<bool> = Vec::new();
        let mut i: usize = 0;
        while i < MAX_PLAYERS as usize
            invariant
                self.consistent(),
                i <= MAX_PLAYERS,
                r@ == self.protection().subrange(0, i as int),
            decreases MAX_PLAYERS - i,
        {
            r.push(self.stall_protect[i] > 0);
            i = i + 1;
            assert(r@ =~= self.protection().subrange(0, i as int));
        }
        assert(r@ =~= self.protection());
        r
    }

    /// `states` walks from `old` to `new` through the steps of slots
    /// `0..MAX_PLAYERS`, in that order.
    pub open spec fn pass_chain(states: Seq<YardSim>, old: &YardSim, new: &YardSim) -> bool {
        &&& states.len() == MAX_PLAYERS + 1
        &&& states[0] == *old
        &&& states[MAX_PLAYERS as int] == *new
        &&& forall|k: int| 0 <= k < MAX_PLAYERS ==> #[trigger] states[k + 1].stepped_from(&states[k], k, old.protection())
    }

    /// `self` is `old` after the movement pass of a tick.
    pub open spec fn passed_from(&self, old: &YardSim) -> bool {
        exists|states: Seq<YardSim>| #[trigger] YardSim::pass_chain(states, old, self)
    }

    /// The movement pass of a tick: each slot in turn, from slot 0 up,
    /// counts down its protection or moves its snake (see `stepped_from`).
    /// Failures and bonuses stay pending until `cleanup`.
    pub fn move_snakes(&mut self)
        requires
            old(self).consistent(),
        ensures
            final(self).consistent(),
            final(self).same_config(old(self)),
            final(self).passed_from(old(self)),
            forall|j: int| 0 <= j < MAX_PLAYERS ==> #[trigger] final(self).live(j) == old(self).live(j),
            forall|j: int|
                0 <= j < MAX_PLAYERS && old(self).stall(j) > 0 ==> #[trigger] final(self).segs(j) == old(
                    self,
                ).segs(j) && final(self).stall(j) == old(self).stall(j) - 1,
            forall|j: int| 0 <= j < MAX_PLAYERS && old(self).stall(j) == 0 ==> #[trigger] final(self).stall(j) == 0,
            forall|j: int|
                0 <= j < MAX_PLAYERS && old(self).stall(j) > 0 ==> #[trigger] final(self).is_failed(j) == old(
                    self,
                ).is_failed(j),
    {
        let prot = self.protected_slots();
        let ghost states: Seq<YardSim> = seq![*self];
        let mut id: u8 = 0;
        while id < MAX_PLAYERS
            invariant
                self.consistent(),
                self.same_config(old(self)),
                id <= MAX_PLAYERS,
                states.len() == id + 1,
                states[0] == *old(self),
                states[id as int] == *self,
                forall|k: int| 0 <= k < id ==> #[trigger] states[k + 1].stepped_from(&states[k], k, old(self).protection()),
                prot@ == old(self).protection(),
                forall|j: int|
                    0 <= j < MAX_PLAYERS && old(self).stall(j) > 0 ==> #[trigger] self.is_failed(j) == old(self).is_failed(j),
                forall|j: int| 0 <= j < MAX_PLAYERS ==> #[trigger] self.live(j) == old(self).live(j),
                forall|j: int|
                    0 <= j < id && old(self).stall(j) > 0 ==> #[trigger] self.segs(j) == old(self).segs(j)
                        && self.stall(j) == old(self).stall(j) - 1,
                forall|j: int| 0 <= j < id && old(self).stall(j) == 0 ==> #[trigger] self.stall(j) == 0,
                forall|j: int|
                    id <= j < MAX_PLAYERS ==> #[trigger] self.segs(j) == old(self).segs(j) && self.stall(j)
                        == old(self).stall(j),
            decreases MAX_PLAYERS - id,
        {
            let ghost pre = *self;
            self.move_slot(id, &prot);
            proof {
                let i = id as int;
                states = states.push(*self);
                assert(states[i + 1].stepped_from(&states[i], i, prot@));
                assert forall|j: int|
                    0 <= j < MAX_PLAYERS && old(self).stall(j) > 0 implies #[trigger] self.is_failed(j) == old(self).is_failed(j) by {
                    assert(pre.is_failed(j) == old(self).is_failed(j));
                    if pre.stall(i) > 0 {
                        if j != i {
                            assert(self.same_slot(&pre, j));
                        }
                    } else if pre.live(i) {
                        assert(prot@[j]);
                        assert(old(self).stall(i) == 0);
                        assert(self.is_failed(j) == pre.is_failed(j));
                    }
                }
                if pre.stall(i) > 0 {
                    assert forall|j: int| 0 <= j < MAX_PLAYERS && j != i implies #[trigger] self.same_slot(&pre, j) by {}
                } else if pre.live(i) {
                    assert forall|j: int| 0 <= j < MAX_PLAYERS implies #[trigger] self.keeps_slot(&pre, j) by {}
                    assert(self.keeps_segs_except(&pre, i));
                    assert forall|j: int| 0 <= j < MAX_PLAYERS && j != i implies #[trigger] self.segs(j) == pre.segs(j) by {}
                }
                assert forall|j: int| 0 <= j < MAX_PLAYERS implies #[trigger] self.live(j) == old(self).live(j) by {
                    if pre.stall(i) > 0 {
                        if j != i {
                            assert(self.same_slot(&pre, j));
                        }
                    } else if pre.live(i) {
                        assert(self.keeps_slot(&pre, j));
                    }
                }
                assert forall|j: int| 0 <= j < id + 1 && old(self).stall(j) > 0 implies #[trigger] self.segs(j)
                    == old(self).segs(j) && self.stall(j) == old(self).stall(j) - 1 by {
                    if pre.stall(i) > 0 {
                        if j != i {
                            assert(self.same_slot(&pre, j));
                        }
                    } else if pre.live(i) {
                        assert(self.keeps_slot(&pre, j));
                    }
                }
                assert forall|j: int| 0 <= j < id + 1 && old(self).stall(j) == 0 implies #[trigger] self.stall(j) == 0 by {
                    if pre.stall(i) > 0 {
                        if j != i {
                            assert(self.same_slot(&pre, j));
                        }
                    } else if pre.live(i) {
                        assert(self.keeps_slot(&pre, j));
                    }
                }
                assert forall|j: int| id + 1 <= j < MAX_PLAYERS implies #[trigger] self.segs(j) == old(self).segs(j)
                    && self.stall(j) == old(self).stall(j) by {
                    if pre.stall(i) > 0 {
                        assert(self.same_slot(&pre, j));
                    } else if pre.live(i) {
                        assert(self.keeps_slot(&pre, j));
                    }
                }
                if pre.stall(i) == 0 && pre.live(i) {
                    assert(self.same_config(&pre));
                }
            }
            id = id + 1;
        }
        assert(YardSim::pass_chain(states, old(self), self));
    }

    /// A cell that `cleanup` empties: it belongs to a failed slot.
    pub open spec fn freed_cell(&self, c: Coord) -> bool {
        &&& owner_of(self.cell(c)) is Some
        &&& self.is_failed(owner_of(self.cell(c))->0)
    }

    /// The score of slot `j` with its pending bonus committed (saturating).
    pub open spec fn committed(&self, j: int) -> usize {
        self.score(j).saturating_add(self.bonus(j))
    }

    /// What `cleanup` does to slot `j`: the bonus is committed to the score;
    /// a failed slot is freed.
    pub open spec fn cleaned_slot(&self, old: &YardSim, j: int) -> bool {
        &&& self.live(j) == (old.live(j) && !old.is_failed(j))
        &&& self.live(j) ==> self.segs(j) == old.segs(j) && self.heading(j) == old.heading(j)
        &&& self.stall(j) == old.stall(j)
        &&& self.score(j) == old.committed(j)
        &&& self.bonus(j) == 0
        &&& !self.is_failed(j)
    }

    /// `self` is `old` after `cleanup`.
    pub open spec fn cleaned_from(&self, old: &YardSim) -> bool {
        &&& self.same_config(old)
        &&& self.beans() == old.beans()
        &&& forall|j: int| 0 <= j < MAX_PLAYERS ==> #[trigger] self.cleaned_slot(old, j)
        &&& forall|c: Coord|
            self.inside(c) ==> #[trigger] self.cell(c) == if old.freed_cell(c) {
                YardBlockType::Empty
            } else {
                old.cell(c)
            }
    }

    /// Clears the cells of the failed snake in slot `id` and frees the slot.
    fn free_failed(&mut self, id: u8)
        requires
            old(self).consistent(),
            id < MAX_PLAYERS,
            old(self).is_failed(id as int),
            old(self).bonus(id as int) == 0,
        ensures
            final(self).consistent(),
            final(self).same_config(old(self)),
            final(self).beans() == old(self).beans(),
            forall|j: int| 0 <= j < MAX_PLAYERS && j != id ==> #[trigger] final(self).same_slot(old(self), j),
            !final(self).live(id as int),
            final(self).stall(id as int) == old(self).stall(id as int),
            final(self).score(id as int) == old(self).score(id as int),
            final(self).bonus(id as int) == 0,
            !final(self).is_failed(id as int),
            forall|c: Coord|
                final(self).inside(c) ==> #[trigger] final(self).cell(c) == if owner_of(old(self).cell(c))
                    == Some(id as int) {
                    YardBlockType::Empty
                } else {
                    old(self).cell(c)
                },
    {
        let ghost pre = *self;
        let i = id as usize;
        proof {
            assert(self.idle_ok(i as int));
            assert(self.snake_ok(i as int));
        }
        let s = self.snakes[i].take().unwrap();
        let body = s.0;
        let ghost segs = body@;
        let ghost n = segs.len();
        let mut k: usize = 0;
        while k < body.len()
            invariant
                self.shaped(),
                self.same_config(&pre),
                self.beans_left == pre.beans_left,
                beans_in_grid(self.block_map@) == beans_in_grid(pre.block_map@),
                self.stall_protect == pre.stall_protect,
                self.score == pre.score,
                self.failed == pre.failed,
                self.bonused == pre.bonused,
                self.snakes@ == pre.snakes@.update(i as int, None),
                pre.consistent(),
                i < MAX_PLAYERS,
                pre.live(i as int),
                segs == pre.segs(i as int),
                n == segs.len(),
                body@ == segs,
                k <= n,
                forall|q: int| 0 <= q < k ==> #[trigger] self.cell(segs[q]) == YardBlockType::Empty,
                forall|c: Coord|
                    self.inside(c) && !segs.subrange(0, k as int).contains(c) ==> #[trigger] self.cell(c)
                        == pre.cell(c),
            decreases n - k,
        {
            let c = body[k];
            proof {
                pre.lemma_seg_owner(i as int, k as int);
            }
            let ghost mid = *self;
            self.set_cell(c, YardBlockType::Empty);
            proof {
                assert forall|q: int| 0 <= q < k + 1 implies #[trigger] self.cell(segs[q]) == YardBlockType::Empty by {
                    if q < k {
                        pre.lemma_seg_owner(i as int, q);
                        assert(mid.cell(segs[q]) == YardBlockType::Empty);
                    }
                }
                assert forall|x: Coord| self.inside(x) && !segs.subrange(0, k + 1).contains(x) implies #[trigger] self.cell(x)
                    == pre.cell(x) by {
                    assert(segs.subrange(0, k + 1)[k as int] == segs[k as int]);
                    assert(x != segs[k as int]);
                    if segs.subrange(0, k as int).contains(x) {
                        let q = choose|q: int| 0 <= q < k && segs.subrange(0, k as int)[q] == x;
                        assert(segs.subrange(0, k + 1)[q] == x);
                    }
                    assert(mid.cell(x) == pre.cell(x));
                }
            }
            k = k + 1;
        }
        let ghost cleared = *self;
        self.failed[i] = false;
        proof {
            assert(segs.subrange(0, n as int) =~= segs);
            assert forall|x: Coord| #[trigger] self.cell(x) == cleared.cell(x) by {}
            assert forall|c: Coord| self.inside(c) implies #[trigger] self.cell(c) == if owner_of(pre.cell(c))
                == Some(i as int) {
                YardBlockType::Empty
            } else {
                pre.cell(c)
            } by {
                assert(pre.occupant_ok(c));
                if segs.contains(c) {
                    let q = choose|q: int| 0 <= q < n && segs[q] == c;
                    pre.lemma_seg_owner(i as int, q);
                } else {
                    assert(cleared.cell(c) == pre.cell(c));
                }
            }
            assert forall|j: int| 0 <= j < MAX_PLAYERS implies #[trigger] self.snake_ok(j) by {
                assert(pre.snake_ok(j));
                if j != i && self.live(j) {
                    assert(self.segs(j) == pre.segs(j));
                    assert forall|q: int| 0 <= q < self.segs(j).len() implies #[trigger] self.painted(j, q) by {
                        pre.lemma_seg_owner(j, q);
                        assert(pre.painted(j, q));
                    }
                }
            }
            assert forall|c: Coord| #[trigger] self.occupant_ok(c) by {
                assert(pre.occupant_ok(c));
                if self.inside(c) && owner_of(self.cell(c)) is Some {
                    assert(self.cell(c) == pre.cell(c));
                    let o = owner_of(pre.cell(c))->0;
                    assert(o != i);
                    assert(self.segs(o) == pre.segs(o));
                }
            }
            assert forall|j: int| 0 <= j < MAX_PLAYERS implies #[trigger] self.idle_ok(j) by {
                assert(pre.idle_ok(j));
            }
            assert forall|j: int| 0 <= j < MAX_PLAYERS && j != i implies #[trigger] self.same_slot(&pre, j) by {}
        }
    }

    /// Commits the pending bonus of slot `id` to its score.
    fn commit_bonus(&mut self, id: u8)
        requires
            old(self).consistent(),
            id < MAX_PLAYERS,
        ensures
            final(self).consistent(),
            final(self).block_map == old(self).block_map,
            final(self).beans_left == old(self).beans_left,
            final(self).same_config(old(self)),
            forall|j: int| 0 <= j < MAX_PLAYERS && j != id ==> #[trigger] final(self).same_slot(old(self), j),
            final(self).live(id as int) == old(self).live(id as int),
            final(self).segs(id as int) == old(self).segs(id as int),
            final(self).heading(id as int) == old(self).heading(id as int),
            final(self).stall(id as int) == old(self).stall(id as int),
            final(self).is_failed(id as int) == old(self).is_failed(id as int),
            final(self).score(id as int) == old(self).committed(id as int),
            final(self).bonus(id as int) == 0,
    {
        let ghost pre = *self;
        let i = id as usize;
        self.score[i] = self.score[i].saturating_add(self.bonused[i]);
        self.bonused[i] = 0;
        proof {
            self.lemma_same_field(&pre);
            assert forall|j: int| 0 <= j < MAX_PLAYERS && j != i implies #[trigger] self.same_slot(&pre, j) by {}
        }
    }

    /// Ends a tick's movement pass: every slot's bonus is committed to its
    /// score, and every failed slot has its cells cleared, its failure mark
    /// lifted and its snake removed.
    pub fn cleanup(&mut self)
        requires
            old(self).consistent(),
        ensures
            final(self).wf(),
            final(self).cleaned_from(old(self)),
    {
        let mut id: u8 = 0;
        while id < MAX_PLAYERS
            invariant
                self.consistent(),
                old(self).consistent(),
                id <= MAX_PLAYERS,
                self.same_config(old(self)),
                self.beans() == old(self).beans(),
                forall|j: int| 0 <= j < id ==> #[trigger] self.cleaned_slot(old(self), j),
                forall|j: int| id <= j < MAX_PLAYERS ==> #[trigger] self.same_slot(old(self), j),
                forall|c: Coord|
                    self.inside(c) ==> #[trigger] self.cell(c) == if old(self).freed_cell(c) && owner_of(
                        old(self).cell(c),
                    )->0 < id {
                        YardBlockType::Empty
                    } else {
                        old(self).cell(c)
                    },
            decreases MAX_PLAYERS - id,
        {
            let ghost pre = *self;
            let i = id as usize;
            proof {
                assert(self.same_slot(old(self), i as int));
            }
            self.commit_bonus(id);
            let ghost s1 = *self;
            if self.failed[i] {
                self.free_failed(id);
            }
            proof {
                assert forall|j: int| 0 <= j < id + 1 implies #[trigger] self.cleaned_slot(old(self), j) by {
                    if j < id {
                        assert(pre.cleaned_slot(old(self), j));
                        assert(s1.same_slot(&pre, j));
                        if s1.is_failed(i as int) {
                            assert(self.same_slot(&s1, j));
                        }
                    }
                }
                assert forall|j: int| id + 1 <= j < MAX_PLAYERS implies #[trigger] self.same_slot(old(self), j) by {
                    assert(pre.same_slot(old(self), j));
                    assert(s1.same_slot(&pre, j));
                    if s1.is_failed(i as int) {
                        assert(self.same_slot(&s1, j));
                    }
                }
                assert forall|c: Coord| self.inside(c) implies #[trigger] self.cell(c) == if old(self).freed_cell(c)
                    && owner_of(old(self).cell(c))->0 < id + 1 {
                    YardBlockType::Empty
                } else {
                    old(self).cell(c)
                } by {
                    assert(pre.cell(c) == s1.cell(c));
                    let oc = old(self).cell(c);
                    if owner_of(oc) is Some && owner_of(oc)->0 == id {
                        assert(old(self).occupant_ok(c));
                    }
                }
            }
            id = id + 1;
        }
        proof {
            assert forall|c: Coord| self.inside(c) implies #[trigger] self.cell(c) == if old(self).freed_cell(c) {
                YardBlockType::Empty
            } else {
                old(self).cell(c)
            } by {
                assert(old(self).occupant_ok(c));
            }
            assert forall|j: int| 0 <= j < MAX_PLAYERS implies !#[trigger] self.is_failed(j) by {
                assert(self.cleaned_slot(old(self), j));
            }
            assert forall|j: int| 0 <= j < MAX_PLAYERS implies #[trigger] self.bonus(j) == 0 by {
                assert(self.cleaned_slot(old(self), j));
            }
        }
        proof {
            self.lemma_bean_cells();
        }
    }

    /// The scores with pending bonuses committed, and the failure marks, of
    /// all slots.
    fn report(&self) -> (r: (Vec<usize>, Vec<bool>))
        requires
            self.shaped(),
        ensures
            r.0@.len() == MAX_PLAYERS,
            r.1@.len() == MAX_PLAYERS,
            forall|j: int| 0 <= j < MAX_PLAYERS ==> #[trigger] r.0@[j] == self.committed(j),
            forall|j: int| 0 <= j < MAX_PLAYERS ==> #[trigger] r.1@[j] == self.is_failed(j),
    {
        let mut scores: Vec<usize> = Vec::new();
        let mut failed: Vec<bool> = Vec::new();
        let mut i: usize = 0;
        while i < MAX_PLAYERS as usize
            invariant
                self.shaped(),
                i <= MAX_PLAYERS,
                scores@.len() == i,
                failed@.len() == i,
                forall|j: int| 0 <= j < i ==> #[trigger] scores@[j] == self.committed(j),
                forall|j: int| 0 <= j < i ==> #[trigger] failed@[j] == self.is_failed(j),
            decreases MAX_PLAYERS - i,
        {
            scores.push(self.score[i].saturating_add(self.bonused[i]));
            failed.push(self.failed[i]);
            i = i + 1;
        }
        (scores, failed)
    }

    /// The three phases of a tick from `old` to `new`, through `mid` (after
    /// the movement pass) and `swept` (after cleanup), with what the tick
    /// reports per slot: the committed score and whether the slot failed.
    pub open spec fn tick_chain(
        old: &YardSim,
        mid: &YardSim,
        swept: &YardSim,
        new: &YardSim,
        scores: Seq<usize>,
        failed: Seq<bool>,
    ) -> bool {
        &&& mid.passed_from(old)
        &&& swept.cleaned_from(mid)
        &&& new.refilled_from(swept)
        &&& scores.len() == MAX_PLAYERS
        &&& failed.len() == MAX_PLAYERS
        &&& forall|j: int| 0 <= j < MAX_PLAYERS ==> #[trigger] scores[j] == mid.committed(j) && failed[j] == mid.is_failed(j)
    }

    /// Runs one tick: the movement pass, then cleanup, then bean refilling.
    /// Returns, per slot, the score with this tick's bonus committed and
    /// whether the slot failed in this tick (and was freed).
    pub fn next_tick(&mut self) -> (r: (Vec<usize>, Vec<bool>))
        requires
            old(self).wf(),
        ensures
            final(self).wf(),
            final(self).occupancy_agrees(),
            exists|mid: YardSim, swept: YardSim| #[trigger] YardSim::tick_chain(old(self), &mid, &swept, final(self), r.0@, r.1@),
            r.0@.len() == MAX_PLAYERS,
            r.1@.len() == MAX_PLAYERS,
            final(self).same_config(old(self)),
            forall|j: int| 0 <= j < MAX_PLAYERS ==> #[trigger] final(self).live(j) == (old(self).live(j) && !r.1@[j]),
            forall|j: int| 0 <= j < MAX_PLAYERS && #[trigger] r.1@[j] ==> old(self).live(j),
            forall|j: int| 0 <= j < MAX_PLAYERS ==> #[trigger] final(self).score(j) == r.0@[j],
            forall|j: int|
                0 <= j < MAX_PLAYERS && old(self).stall(j) > 0 && old(self).live(j) ==> #[trigger] final(self).live(j)
                    && final(self).segs(j) == old(self).segs(j),
            forall|j: int|
                0 <= j < MAX_PLAYERS && old(self).stall(j) > 0 && final(self).live(j) ==> #[trigger] final(self).segs(j)
                    == old(self).segs(j),
            forall|j: int|
                0 <= j < MAX_PLAYERS && old(self).stall(j) > 0 ==> #[trigger] final(self).stall(j) == old(self).stall(j) - 1,
    {
        self.move_snakes();
        let ghost mid = *self;
        let r = self.report();
        self.cleanup();
        let ghost swept = *self;
        self.fill_beans();
        proof {
            assert forall|j: int| 0 <= j < MAX_PLAYERS implies #[trigger] mid.live(j) == old(self).live(j) && r.0@[j]
                == mid.committed(j) && r.1@[j] == mid.is_failed(j) by {}
            assert(YardSim::tick_chain(old(self), &mid, &swept, self, r.0@, r.1@));
            assert forall|j: int| 0 <= j < MAX_PLAYERS implies #[trigger] final(self).live(j) == (old(self).live(j)
                && !r.1@[j]) by {
                assert(mid.live(j) == old(self).live(j));
                assert(swept.cleaned_slot(&mid, j));
                assert(self.same_slot(&swept, j));
            }
            assert forall|j: int| 0 <= j < MAX_PLAYERS && #[trigger] r.1@[j] implies old(self).live(j) by {
                assert(mid.live(j) == old(self).live(j));
                assert(mid.idle_ok(j));
            }
            assert forall|j: int| 0 <= j < MAX_PLAYERS implies #[trigger] final(self).score(j) == r.0@[j] by {
                assert(swept.cleaned_slot(&mid, j));
                assert(self.same_slot(&swept, j));
            }
            assert forall|j: int|
                0 <= j < MAX_PLAYERS && old(self).stall(j) > 0 && old(self).live(j) implies #[trigger] final(self).live(j)
                    && final(self).segs(j) == old(self).segs(j) by {
                assert(mid.live(j) == old(self).live(j));
                assert(mid.segs(j) == old(self).segs(j));
                assert(mid.is_failed(j) == old(self).is_failed(j));
                assert(swept.cleaned_slot(&mid, j));
                assert(self.same_slot(&swept, j));
            }
            assert forall|j: int|
                0 <= j < MAX_PLAYERS && old(self).stall(j) > 0 && self.live(j) implies #[trigger] self.segs(j)
                    == old(self).segs(j) by {
                assert(mid.segs(j) == old(self).segs(j));
                assert(swept.cleaned_slot(&mid, j));
                assert(self.same_slot(&swept, j));
            }
            assert forall|j: int|
                0 <= j < MAX_PLAYERS && old(self).stall(j) > 0 implies #[trigger] self.stall(j) == old(self).stall(j) - 1 by {
                assert(mid.segs(j) == old(self).segs(j));
                assert(swept.cleaned_slot(&mid, j));
                assert(self.same_slot(&swept, j));
            }
        }
        r
    }

    /// Background of slot `id`'s cells: blinking white on odd ticks of
    /// protection, the slot's colour otherwise.
    pub open spec fn slot_bg(&self, id: int) -> Color {
        if self.stall(id) % 2 == 1 {
            Color::White
        } else {
            player_color_of(id)
        }
    }

    /// How cell `c` is drawn: foreground, background, glyph.
    pub open spec fn look(&self, c: Coord) -> (Color, Color, Seq<char>) {
        match self.cell(c) {
            YardBlockType::Empty => (Color::White, Color::White, EMPTY@),
            YardBlockType::Bean => (Color::Yellow, Color::Green, BEAN@),
            YardBlockType::Body(id) => (Color::White, self.slot_bg(id as int), EMPTY@),
            YardBlockType::Head(id, d) => (Color::White, self.slot_bg(id as int), head_glyph(d)),
        }
    }

    /// `buf` draws the field cell by cell.
    pub open spec fn shows(&self, buf: &YardBuf) -> bool {
        &&& buf@.len() == self.rows()
        &&& forall|r: int| 0 <= r < self.rows() ==> (#[trigger] buf@[r])@.len() == self.cols()
        &&& forall|r: int, c: int|
            0 <= r < self.rows() && 0 <= c < self.cols() ==> {
                let b = #[trigger] buf@[r]@[c];
                let l = self.look(Coord(r as usize, c as usize));
                b.fg == l.0 && b.bg == l.1 && b.content@ == l.2
            }
    }

    /// A snapshot of the field for a renderer, row by row.
    pub fn generate_buf(&self) -> (buf: YardBuf)
        requires
            self.wf(),
        ensures
            self.shows(&buf),
    {
        let mut result_buf: YardBuf = Vec::new();
        let mut r: usize = 0;
        while r < self.height
            invariant
                self.wf(),
                r <= self.height,
                result_buf@.len() == r,
                forall|k: int| 0 <= k < r ==> (#[trigger] result_buf@[k])@.len() == self.cols(),
                forall|k: int, c: int|
                    0 <= k < r && 0 <= c < self.cols() ==> {
                        let b = #[trigger] result_buf@[k]@[c];
                        let l = self.look(Coord(k as usize, c as usize));
                        b.fg == l.0 && b.bg == l.1 && b.content@ == l.2
                    },
            decreases self.height - r,
        {
            let mut row: Vec<TUIBlock> = Vec::new();
            let mut c: usize = 0;
            while c < self.width
                invariant
                    self.wf(),
                    r < self.height,
                    c <= self.width,
                    row@.len() == c,
                    forall|j: int|
                        0 <= j < c ==> {
                            let b = #[trigger] row@[j];
                            let l = self.look(Coord(r, j as usize));
                            b.fg == l.0 && b.bg == l.1 && b.content@ == l.2
                        },
                decreases self.width - c,
            {
                proof {
                    assert(self.occupant_ok(Coord(r, c)));
                }
                let block = match self.block_map[r][c] {
                    YardBlockType::Empty => TUIBlock {
                        fg: Color::White,
                        bg: Color::White,
                        content: String::from_str(EMPTY),
                    },
                    YardBlockType::Bean => TUIBlock {
                        fg: Color::Yellow,
                        bg: Color::Green,
                        content: String::from_str(BEAN),
                    },
                    YardBlockType::Body(id) => TUIBlock {
                        fg: Color::White,
                        bg: self.slot_background(id),
                        content: String::from_str(EMPTY),
                    },
                    YardBlockType::Head(id, d) => TUIBlock {
                        fg: Color::White,
                        bg: self.slot_background(id),
                        content: String::from_str(d.glyph()),
                    },
                };
                row.push(block);
                c = c + 1;
            }
            result_buf.push(row);
            r = r + 1;
        }
        result_buf
    }

    fn slot_background(&self, id: u8) -> (r: Color)
        requires
            self.shaped(),
            id < MAX_PLAYERS,
        ensures
            r == self.slot_bg(id as int),
    {
        if self.stall_protect[id as usize] % 2 == 1 {
            Color::White
        } else {
            player_color(id)
        }
    }

    /// The lowest free slot is a slot, and free.
    pub proof fn lemma_first_free(&self)
        ensures
            self.first_free() matches Some(i) ==> 0 <= i < MAX_PLAYERS && !self.live(i),
    {
        self.lemma_free_from(0);
    }

    /// Every occupied cell of a consistent field is a segment of a live
    /// snake, and two segments on one cell are the same segment of the same
    /// snake.
    pub proof fn lemma_one_segment_per_cell(&self, c: Coord, i: int, k: int, j: int, q: int)
        requires
            self.consistent(),
        ensures
            self.inside(c) && owner_of(self.cell(c)) is Some ==> {
                let o = owner_of(self.cell(c))->0;
                0 <= o < MAX_PLAYERS && self.live(o) && self.segs(o).contains(c)
            },
            0 <= i < MAX_PLAYERS && self.live(i) && 0 <= k < self.segs(i).len() && self.segs(i)[k] == c
                && 0 <= j < MAX_PLAYERS && self.live(j) && 0 <= q < self.segs(j).len() && self.segs(j)[q] == c
                ==> i == j && k == q,
    {
        assert(self.occupant_ok(c));
        if 0 <= i < MAX_PLAYERS && self.live(i) && 0 <= k < self.segs(i).len() && self.segs(i)[k] == c && 0 <= j
            < MAX_PLAYERS && self.live(j) && 0 <= q < self.segs(j).len() && self.segs(j)[q] == c {
            self.lemma_seg_owner(i, k);
            self.lemma_seg_owner(j, q);
            assert(self.snake_ok(i));
        }
    }

    /// Where the head of slot `i` goes next, if it stays on the field.
    pub open spec fn next_head(&self, i: int) -> Option<Coord> {
        step_within(self.segs(i)[0], self.heading(i), self.bounds())
    }

    /// Kill-steal: when the live, unprotected snake of slot `i` heads into
    /// the body of slot `o`, its step marks it failed, keeps its cells, and
    /// gives its whole score to `o` as pending bonus.
    pub proof fn lemma_kill_steal(old: YardSim, new: YardSim, i: int, o: u8, prot: Seq<bool>)
        requires
            0 <= i < MAX_PLAYERS,
            old.live(i),
            old.stall(i) == 0,
            old.next_head(i) is Some,
            old.cell(old.next_head(i)->0) == YardBlockType::Body(o),
            new.stepped_from(&old, i, prot),
        ensures
            new.is_failed(i),
            new.segs(i) == old.segs(i),
            o < MAX_PLAYERS ==> new.bonus(o as int) == old.bonus(o as int).saturating_add(old.score(i)),
    {
        assert(new.is_failed(i) == (i == i || old.is_failed(i)));
        if o < MAX_PLAYERS {
            assert(new.bonus(o as int) == old.bonus(o as int).saturating_add(old.score(i)));
        }
    }

    /// A step keeps every score, never lowers a bonus, and never lifts a
    /// failure mark.
    proof fn lemma_step_monotone(new: YardSim, old: YardSim, i: int, prot: Seq<bool>, j: int)
        requires
            0 <= i < MAX_PLAYERS,
            0 <= j < MAX_PLAYERS,
            new.stepped_from(&old, i, prot),
        ensures
            new.score(j) == old.score(j),
            new.bonus(j) >= old.bonus(j),
            old.is_failed(j) ==> new.is_failed(j),
    {
        if old.stall(i) > 0 {
            if j != i {
                assert(new.same_slot(&old, j));
            }
        } else if old.live(i) {
            assert(new.keeps_slot(&old, j));
            assert(new.bonus(j) >= old.bonus(j));
            assert(old.is_failed(j) ==> new.is_failed(j));
        }
    }

    proof fn lemma_chain_monotone(states: Seq<YardSim>, old: YardSim, mid: YardSim, k0: int, k: int, j: int)
        requires
            YardSim::pass_chain(states, &old, &mid),
            0 <= k0 <= k <= MAX_PLAYERS,
            0 <= j < MAX_PLAYERS,
        ensures
            states[k].score(j) == states[k0].score(j),
            states[k].bonus(j) >= states[k0].bonus(j),
            states[k0].is_failed(j) ==> states[k].is_failed(j),
        decreases k - k0,
    {
        if k0 < k {
            YardSim::lemma_chain_monotone(states, old, mid, k0, k - 1, j);
            assert(states[(k - 1) + 1].stepped_from(&states[k - 1], k - 1, old.protection()));
            YardSim::lemma_step_monotone(states[k], states[k - 1], k - 1, old.protection(), j);
        }
    }

    /// Kill-steal over a whole tick: if, when its turn comes, the live,
    /// unprotected snake of slot `a` heads into the body of slot `b`, then the
    /// tick reports `a` failed and frees it, and `b` ends the tick with at
    /// least its old score plus `a`'s whole score (saturating).
    pub proof fn lemma_kill_steal_tick(
        old: YardSim,
        states: Seq<YardSim>,
        mid: YardSim,
        swept: YardSim,
        new: YardSim,
        scores: Seq<usize>,
        failed: Seq<bool>,
        a: int,
        b: u8,
    )
        requires
            old.wf(),
            YardSim::pass_chain(states, &old, &mid),
            YardSim::tick_chain(&old, &mid, &swept, &new, scores, failed),
            0 <= a < MAX_PLAYERS,
            b < MAX_PLAYERS,
            states[a].live(a),
            states[a].stall(a) == 0,
            states[a].next_head(a) is Some,
            states[a].cell(states[a].next_head(a)->0) == YardBlockType::Body(b),
        ensures
            failed[a],
            !new.live(a),
            new.score(b as int) >= old.score(b as int).saturating_add(old.score(a)),
    {
        let bi = b as int;
        assert(states[a + 1].stepped_from(&states[a], a, old.protection()));
        YardSim::lemma_kill_steal(states[a], states[a + 1], a, b, old.protection());
        YardSim::lemma_chain_monotone(states, old, mid, 0, a, a);
        YardSim::lemma_chain_monotone(states, old, mid, a + 1, MAX_PLAYERS as int, a);
        YardSim::lemma_chain_monotone(states, old, mid, 0, a, bi);
        YardSim::lemma_chain_monotone(states, old, mid, a + 1, MAX_PLAYERS as int, bi);
        YardSim::lemma_chain_monotone(states, old, mid, 0, MAX_PLAYERS as int, bi);
        YardSim::lemma_step_monotone(states[a + 1], states[a], a, old.protection(), bi);
        assert(mid.is_failed(a));
        assert(mid.bonus(bi) >= old.score(a));
        assert(mid.score(bi) == old.score(bi));
        assert(swept.cleaned_slot(&mid, a));
        assert(swept.cleaned_slot(&mid, bi));
        assert(new.same_slot(&swept, a));
        assert(new.same_slot(&swept, bi));
        assert(scores[a] == mid.committed(a));
        assert(failed[a] == mid.is_failed(a));
    }

    proof fn lemma_idle_steps(states: Seq<YardSim>, old: YardSim, mid: YardSim, k: int)
        requires
            YardSim::pass_chain(states, &old, &mid),
            1 <= k <= MAX_PLAYERS,
            forall|i: int| 1 <= i < MAX_PLAYERS ==> !#[trigger] old.live(i),
            forall|i: int| 0 <= i < MAX_PLAYERS ==> #[trigger] states[1].live(i) == old.live(i),
        ensures
            forall|i: int| 0 <= i < MAX_PLAYERS ==> #[trigger] states[k].live(i) == old.live(i),
            states[k].same_slot(&states[1], 0),
            forall|j: int| 0 <= j < MAX_PLAYERS ==> #[trigger] states[k].is_failed(j) == states[1].is_failed(j),
            forall|x: Coord| #[trigger] states[k].cell(x) == states[1].cell(x),
            states[k].same_config(&states[1]),
        decreases k,
    {
        if k > 1 {
            YardSim::lemma_idle_steps(states, old, mid, k - 1);
            let p = states[k - 1];
            let q = states[k];
            assert(states[(k - 1) + 1].stepped_from(&states[k - 1], k - 1, old.protection()));
            assert(!p.live(k - 1));
            if p.stall(k - 1) > 0 {
                assert forall|i: int| 0 <= i < MAX_PLAYERS implies #[trigger] q.live(i) == old.live(i) by {
                    if i != k - 1 {
                        assert(q.same_slot(&p, i));
                    }
                }
                assert(q.same_slot(&p, 0));
                assert forall|j: int| 0 <= j < MAX_PLAYERS implies #[trigger] q.is_failed(j) == states[1].is_failed(j) by {
                    if j != k - 1 {
                        assert(q.same_slot(&p, j));
                    }
                }
            }
        }
    }

    /// A lone snake's move: in a tick that starts with the snake of slot 0
    /// live and unprotected, every other slot free, and the cell `nh` ahead
    /// of its head empty or holding a bean, the snake steps onto `nh` in its
    /// direction; its old head follows right behind, and it leaves its tail
    /// unless it ate the bean.
    pub proof fn lemma_lone_snake_moves(
        old: YardSim,
        states: Seq<YardSim>,
        mid: YardSim,
        swept: YardSim,
        new: YardSim,
        scores: Seq<usize>,
        failed: Seq<bool>,
        nh: Coord,
    )
        requires
            old.wf(),
            YardSim::pass_chain(states, &old, &mid),
            YardSim::tick_chain(&old, &mid, &swept, &new, scores, failed),
            old.live(0),
            old.stall(0) == 0,
            forall|i: int| 1 <= i < MAX_PLAYERS ==> !#[trigger] old.live(i),
            old.next_head(0) == Some(nh),
            old.cell(nh) is Empty || old.cell(nh) is Bean,
        ensures
            new.live(0),
            !failed[0],
            new.cell(nh) == YardBlockType::Head(0, old.heading(0)),
            new.segs(0) == if old.cell(nh) is Empty {
                seq![nh] + old.segs(0).drop_last()
            } else {
                seq![nh] + old.segs(0)
            },
    {
        let s1 = states[1];
        assert(states[0int + 1].stepped_from(&states[0], 0, old.protection()));
        assert(s1.moved_from(&old, 0, old.protection()));
        assert forall|i: int| 0 <= i < MAX_PLAYERS implies #[trigger] s1.live(i) == old.live(i) by {
            assert(s1.keeps_slot(&old, i));
        }
        YardSim::lemma_idle_steps(states, old, mid, MAX_PLAYERS as int);
        assert(mid == states[MAX_PLAYERS as int]);
        assert(!s1.is_failed(0));
        assert(!mid.is_failed(0));
        assert(swept.cleaned_slot(&mid, 0));
        assert(new.same_slot(&swept, 0));
        assert(!mid.freed_cell(nh));
        assert(old.snake_ok(0));
        old.lemma_seg_owner(0, 0);
        assert(old.inside(nh));
        assert(swept.cell(nh) == mid.cell(nh));
        assert(new.cell(nh) == swept.cell(nh) || swept.cell(nh) == YardBlockType::Empty);
        assert(scores[0] == mid.committed(0));
    }

    /// Head to head: when the live, unprotected snake of slot `i` heads into
    /// the head of slot `o`, it is marked failed; if `i < o`, `o` keeps its
    /// failure mark and gains `i`'s whole score as pending bonus; otherwise
    /// no bonus changes hands, and `o` is marked failed too unless it was
    /// protected when the tick began.
    pub proof fn lemma_head_on(old: YardSim, new: YardSim, i: int, o: u8, hd: Direction, prot: Seq<bool>)
        requires
            0 <= i < MAX_PLAYERS,
            o < MAX_PLAYERS,
            old.live(i),
            old.stall(i) == 0,
            old.next_head(i) is Some,
            old.cell(old.next_head(i)->0) == YardBlockType::Head(o, hd),
            new.stepped_from(&old, i, prot),
        ensures
            new.is_failed(i),
            i < o ==> new.is_failed(o as int) == old.is_failed(o as int) && new.bonus(o as int) == old.bonus(
                o as int,
            ).saturating_add(old.score(i)),
            i >= o ==> new.bonus(o as int) == old.bonus(o as int),
            i >= o && !prot[o as int] ==> new.is_failed(o as int),
            i >= o && prot[o as int] && o != i ==> new.is_failed(o as int) == old.is_failed(o as int),
    {
        assert(new.is_failed(i));
        assert(new.is_failed(o as int) == (o == i || (i >= o && !prot[o as int]) || old.is_failed(o as int)));
        assert(new.bonus(o as int) == if i < o {
            old.bonus(o as int).saturating_add(old.score(i))
        } else {
            old.bonus(o as int)
        });
    }

    /// Columns of the field.
    pub fn width(&self) -> (r: usize)
        ensures
            r == self.cols(),
    {
        self.width
    }

    /// Rows of the field.
    pub fn height(&self) -> (r: usize)
        ensures
            r == self.rows(),
    {
        self.height
    }

    /// Beans on the field now.
    pub fn beans_left(&self) -> (r: usize)
        ensures
            r == self.beans(),
    {
        self.beans_left
    }

    /// The number of beans kept on the field.
    pub fn bean_target(&self) -> (r: usize)
        ensures
            r == self.target(),
    {
        self.bean_count
    }

    /// The block at cell `c`, or `None` outside the field.
    pub fn block_at(&self, c: Coord) -> (r: Option<YardBlockType>)
        requires
            self.consistent(),
        ensures
            r == if self.inside(c) {
                Some(self.cell(c))
            } else {
                None
            },
    {
        if c.0 < self.height && c.1 < self.width {
            Some(self.block_map[c.0][c.1])
        } else {
            None
        }
    }

    /// The cells of slot `id`'s snake, head first, or `None` for a free slot.
    pub fn snake_cells(&self, id: u8) -> (r: Option<Vec<Coord>>)
        requires
            self.consistent(),
            id < MAX_PLAYERS,
        ensures
            r is Some == self.live(id as int),
            r matches Some(v) ==> v@ == self.segs(id as int),
    {
        match &self.snakes[id as usize] {
            Some(s) => {
                let mut v: Vec<Coord> = Vec::new();
                let mut k: usize = 0;
                while k < s.0.len()
                    invariant
                        k <= s.0@.len(),
                        v@ == s.0@.subrange(0, k as int),
                    decreases s.0@.len() - k,
                {
                    v.push(s.0[k]);
                    k = k + 1;
                    assert(v@ =~= s.0@.subrange(0, k as int));
                }
                assert(v@ =~= s.0@);
                Some(v)
            },
            None => None,
        }
    }

    /// The direction slot `id`'s snake goes next, or `None` for a free slot.
    pub fn direction_of(&self, id: u8) -> (r: Option<Direction>)
        requires
            self.consistent(),
            id < MAX_PLAYERS,
        ensures
            r == if self.live(id as int) {
                Some(self.heading(id as int))
            } else {
                None
            },
    {
        match &self.snakes[id as usize] {
            Some(s) => Some(s.1),
            None => None,
        }
    }

    /// Ticks of protection left to slot `id`.
    pub fn stall_of(&self, id: u8) -> (r: u64)
        requires
            self.consistent(),
            id < MAX_PLAYERS,
        ensures
            r == self.stall(id as int),
    {
        self.stall_protect[id as usize]
    }

    /// The bonus slot `id` has won in this tick, not yet committed.
    pub fn bonus_of(&self, id: u8) -> (r: usize)
        requires
            self.consistent(),
            id < MAX_PLAYERS,
        ensures
            r == self.bonus(id as int),
    {
        self.bonused[id as usize]
    }

    /// Whether slot `id` failed in this tick and awaits cleanup.
    pub fn failed_of(&self, id: u8) -> (r: bool)
        requires
            self.consistent(),
            id < MAX_PLAYERS,
        ensures
            r == self.is_failed(id as int),
    {
        self.failed[id as usize]
    }

    /// Paints one cell; the bean count follows the block painted over.
    fn set_cell(&mut self, c: Coord, b: YardBlockType)
        requires
            old(self).shaped(),
            old(self).inside(c),
        ensures
            final(self).shaped(),
            final(self).same_config(old(self)),
            final(self).snakes == old(self).snakes,
            final(self).stall_protect == old(self).stall_protect,
            final(self).score == old(self).score,
            final(self).failed == old(self).failed,
            final(self).bonused == old(self).bonused,
            final(self).beans_left == old(self).beans_left,
            final(self).cell(c) == b,
            forall|x: Coord|
                old(self).inside(x) && x != c ==> #[trigger] final(self).cell(x) == old(self).cell(x),
            beans_in_grid(final(self).block_map@) + bean_weight(old(self).cell(c)) == beans_in_grid(
                old(self).block_map@,
            ) + bean_weight(b),
    {
        let ghost g = self.block_map@;
        let mut row: Vec<YardBlockType> = Vec::new();
        std::mem::swap(&mut row, &mut self.block_map[c.0]);
        proof {
            lemma_row_update(row@, c.1 as int, b);
        }
        row[c.1] = b;
        self.block_map[c.0] = row;
        proof {
            lemma_grid_update(g, c.0 as int, self.block_map@[c.0 as int]);
            assert(self.block_map@ =~= g.update(c.0 as int, self.block_map@[c.0 as int]));
            assert forall|x: Coord| old(self).inside(x) && x != c implies #[trigger] self.cell(x)
                == old(self).cell(x) by {
                if x.0 == c.0 {
                }
            }
        }
    }
}

} // verus!
