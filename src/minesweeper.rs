use vstd::prelude::*;

use crate::cell::{hidden_empty, is_bomb, Cell, CellState, CellType};
use crate::coordinates::Coordinates;
use crate::field::{
    cell_at, count_where, in_bounds, index_of, lemma_count_update, lemma_index_in_range,
    lemma_index_injective, neighbor_bombs, freshly_mined, Field,
};

verus! {

pub open spec fn hidden_pred() -> spec_fn(Cell) -> bool {
    |c: Cell| c.1 == CellState::UNKNOWN
}

/// The two positions share a side.
pub open spec fn orth_adjacent(a: (int, int), b: (int, int)) -> bool {
    ||| a.0 == b.0 && (a.1 - b.1 == 1 || b.1 - a.1 == 1)
    ||| a.1 == b.1 && (a.0 - b.0 == 1 || b.0 - a.0 == 1)
}

/// The four side neighbours, in the order a reveal visits them.
pub open spec fn side_step(d: int) -> (int, int) {
    if d == 0 {
        (-1, 0)
    } else if d == 1 {
        (1, 0)
    } else if d == 2 {
        (0, -1)
    } else {
        (0, 1)
    }
}

/// A revealed empty cell: it shows its neighbour count when that is positive
/// and keeps its content otherwise.
pub open spec fn exposed_value(c: Cell, n: int) -> Cell {
    if n > 0 {
        (CellType::EMPTY(Some(n as u8)), CellState::EXPOSED)
    } else {
        (c.0, CellState::EXPOSED)
    }
}

/// `s2` is `s` with exactly the positions in `order` revealed.
pub open spec fn revealed_exactly(
    s: Seq<Cell>,
    s2: Seq<Cell>,
    w: int,
    h: int,
    order: Seq<(int, int)>,
) -> bool {
    &&& s2.len() == s.len()
    &&& forall|x: int, y: int|
        in_bounds(w, h, x, y) ==> #[trigger] cell_at(s2, w, x, y) == if order.contains((x, y)) {
            exposed_value(cell_at(s, w, x, y), neighbor_bombs(s, w, h, x, y))
        } else {
            cell_at(s, w, x, y)
        }
}

/// Every hidden empty side neighbour of `p` is in `order`.
pub open spec fn closed_at(s: Seq<Cell>, w: int, h: int, order: Seq<(int, int)>, p: (int, int)) -> bool {
    forall|x: int, y: int|
        #![trigger orth_adjacent(p, (x, y)), cell_at(s, w, x, y)]
        in_bounds(w, h, x, y) && orth_adjacent(p, (x, y)) && hidden_empty(cell_at(s, w, x, y))
            ==> order.contains((x, y))
}

/// `order` lists distinct hidden empty cells, starting at `start`; each later
/// one is a side neighbour of an earlier one with no bomb around it.
pub open spec fn reached_from(
    s: Seq<Cell>,
    w: int,
    h: int,
    start: (int, int),
    order: Seq<(int, int)>,
    parent: Seq<int>,
) -> bool {
    &&& order.len() >= 1
    &&& parent.len() == order.len()
    &&& order[0] == start
    &&& order.no_duplicates()
    &&& forall|k: int|
        0 <= k < order.len() ==> in_bounds(w, h, (#[trigger] order[k]).0, order[k].1)
            && hidden_empty(cell_at(s, w, order[k].0, order[k].1))
    &&& forall|k: int|
        1 <= k < order.len() ==> 0 <= #[trigger] parent[k] < k && neighbor_bombs(
            s,
            w,
            h,
            order[parent[k]].0,
            order[parent[k]].1,
        ) == 0 && orth_adjacent(order[parent[k]], order[k])
}

/// One witness of a flood fill from `start`: the cells revealed are exactly
/// those of `order`, every one of them reached through blank cells, and every
/// blank one among them has all its hidden empty side neighbours revealed too.
pub open spec fn flood_witness(
    s: Seq<Cell>,
    s2: Seq<Cell>,
    w: int,
    h: int,
    start: (int, int),
    order: Seq<(int, int)>,
    parent: Seq<int>,
) -> bool {
    &&& reached_from(s, w, h, start, order, parent)
    &&& revealed_exactly(s, s2, w, h, order)
    &&& forall|k: int|
        0 <= k < order.len() && neighbor_bombs(s, w, h, (#[trigger] order[k]).0, order[k].1) == 0
            ==> closed_at(s, w, h, order, order[k])
}

/// `s2` is what a flood fill from `start` makes of `s`.
pub open spec fn flood_result(s: Seq<Cell>, s2: Seq<Cell>, w: int, h: int, start: (int, int)) -> bool {
    exists|order: Seq<(int, int)>, parent: Seq<int>| #[trigger]
        flood_witness(s, s2, w, h, start, order, parent)
}

pub proof fn lemma_push_contains<A>(order: Seq<A>, q: A)
    ensures
        forall|p: A| order.contains(p) ==> #[trigger] order.push(q).contains(p),
        order.push(q).contains(q),
{
    assert forall|p: A| order.contains(p) implies #[trigger] order.push(q).contains(p) by {
        let i = choose|i: int| 0 <= i < order.len() && order[i] == p;
        assert(order.push(q)[i] == p);
    }
    assert(order.push(q)[order.len() as int] == q);
}

proof fn lemma_closed_grow(s: Seq<Cell>, w: int, h: int, order: Seq<(int, int)>, q: (int, int))
    ensures
        forall|p: (int, int)|
            closed_at(s, w, h, order, p) ==> #[trigger] closed_at(s, w, h, order.push(q), p),
{
    lemma_push_contains(order, q);
}

/// Same bombs at every position give the same neighbour counts.
proof fn lemma_same_counts(s: Seq<Cell>, s2: Seq<Cell>, w: int, h: int, x: int, y: int)
    requires
        forall|a: int, b: int|
            in_bounds(w, h, a, b) ==> is_bomb(#[trigger] cell_at(s2, w, a, b)) == is_bomb(
                cell_at(s, w, a, b),
            ),
    ensures
        neighbor_bombs(s2, w, h, x, y) == neighbor_bombs(s, w, h, x, y),
{
}

/// Revealing only hidden empty cells leaves every neighbour count as it was.
proof fn lemma_revealed_counts(
    s: Seq<Cell>,
    s2: Seq<Cell>,
    w: int,
    h: int,
    order: Seq<(int, int)>,
    x: int,
    y: int,
)
    requires
        revealed_exactly(s, s2, w, h, order),
        forall|k: int|
            0 <= k < order.len() ==> hidden_empty(
                cell_at(s, w, (#[trigger] order[k]).0, order[k].1),
            ),
    ensures
        neighbor_bombs(s2, w, h, x, y) == neighbor_bombs(s, w, h, x, y),
{
    assert forall|a: int, b: int| in_bounds(w, h, a, b) implies is_bomb(
        #[trigger] cell_at(s2, w, a, b),
    ) == is_bomb(cell_at(s, w, a, b)) by {
        if order.contains((a, b)) {
            let k = choose|k: int| 0 <= k < order.len() && order[k] == (a, b);
            assert(hidden_empty(cell_at(s, w, order[k].0, order[k].1)));
        }
    }
    lemma_same_counts(s, s2, w, h, x, y);
}

/// Revealing one more hidden empty cell extends `order` by it.
proof fn lemma_reveal_step(
    s: Seq<Cell>,
    s2: Seq<Cell>,
    w: int,
    h: int,
    order: Seq<(int, int)>,
    x: int,
    y: int,
)
    requires
        w > 0,
        h > 0,
        s.len() == w * h,
        revealed_exactly(s, s2, w, h, order),
        in_bounds(w, h, x, y),
        hidden_empty(cell_at(s2, w, x, y)),
    ensures
        !order.contains((x, y)),
        cell_at(s2, w, x, y) == cell_at(s, w, x, y),
        revealed_exactly(
            s,
            s2.update(
                index_of(w, x, y),
                exposed_value(cell_at(s, w, x, y), neighbor_bombs(s, w, h, x, y)),
            ),
            w,
            h,
            order.push((x, y)),
        ),
{
    let i = index_of(w, x, y);
    let v = exposed_value(cell_at(s, w, x, y), neighbor_bombs(s, w, h, x, y));
    let s3 = s2.update(i, v);
    let o2 = order.push((x, y));
    lemma_push_contains(order, (x, y));
    lemma_index_in_range(w, h, x, y);
    assert forall|a: int, b: int| in_bounds(w, h, a, b) implies #[trigger] cell_at(s3, w, a, b)
        == if o2.contains((a, b)) {
        exposed_value(cell_at(s, w, a, b), neighbor_bombs(s, w, h, a, b))
    } else {
        cell_at(s, w, a, b)
    } by {
        lemma_index_in_range(w, h, a, b);
        if index_of(w, a, b) == i {
            lemma_index_injective(w, a, b, x, y);
        } else {
            assert(cell_at(s2, w, a, b) == cell_at(s, w, a, b) || order.contains((a, b)));
            if !order.contains((a, b)) {
                assert(o2.contains((a, b)) ==> (a, b) == (x, y)) by {
                    if o2.contains((a, b)) {
                        let k = choose|k: int| 0 <= k < o2.len() && o2[k] == (a, b);
                        if k < order.len() {
                            assert(order[k] == (a, b));
                        }
                    }
                }
            }
        }
    }
}

proof fn lemma_push_no_duplicates(order: Seq<(int, int)>, q: (int, int))
    requires
        order.no_duplicates(),
        !order.contains(q),
    ensures
        order.push(q).no_duplicates(),
{
    assert forall|i: int, j: int|
        0 <= i < order.len() + 1 && 0 <= j < order.len() + 1 && i != j implies order.push(q)[i]
        != order.push(q)[j] by {
        if i < order.len() && j < order.len() {
            assert(order[i] != order[j]);
        } else if i < order.len() {
            assert(order[i] != q);
        } else {
            assert(order[j] != q);
        }
    }
}

/// Reveals the hidden empty cell at (x, y); a positive neighbour count is
/// stored in it.
fn reveal_cell(field: &mut Field, x: isize, y: isize) -> (r: u8)
    requires
        old(field).wf(),
        old(field).spec_in_bounds(x as int, y as int),
        hidden_empty(old(field).spec_cell(x as int, y as int)),
    ensures
        final(field).wf(),
        final(field).dimensions@ == old(field).dimensions@,
        final(field).cell_size == old(field).cell_size,
        final(field).bomb_count == old(field).bomb_count,
        r == neighbor_bombs(
            old(field).cells@,
            old(field).spec_width(),
            old(field).spec_height(),
            x as int,
            y as int,
        ),
        final(field).cells@ == old(field).cells@.update(
            old(field).spec_index(x as int, y as int),
            exposed_value(old(field).spec_cell(x as int, y as int), r as int),
        ),
{
    proof {
        lemma_index_in_range(field.spec_width(), field.spec_height(), x as int, y as int);
    }
    let coords = Coordinates::new(x, y);
    let n = field.count_bomb_neighbors(&coords);
    if n > 0 {
        field.set_cell_type(&coords, CellType::EMPTY(Some(n)));
    }
    field.set_cell_state(&coords, CellState::EXPOSED);
    proof {
        assert(field.cells@ =~= old(field).cells@.update(
            old(field).spec_index(x as int, y as int),
            exposed_value(old(field).spec_cell(x as int, y as int), n as int),
        ));
    }
    n
}

/// Reveals the hidden empty cell at `coords` and, spreading through side
/// neighbours from every revealed cell with no bomb around it, every hidden
/// empty cell so reached. Each revealed cell enters a work list once, at the
/// moment it is revealed.
pub fn flood_fill(field: &mut Field, coords: &Coordinates)
    requires
        old(field).wf(),
        old(field).spec_in_bounds(coords.x_coord as int, coords.y_coord as int),
        hidden_empty(old(field).spec_cell(coords.x_coord as int, coords.y_coord as int)),
    ensures
        final(field).wf(),
        final(field).dimensions@ == old(field).dimensions@,
        final(field).cell_size == old(field).cell_size,
        final(field).bomb_count == old(field).bomb_count,
        flood_result(
            old(field).cells@,
            final(field).cells@,
            old(field).spec_width(),
            old(field).spec_height(),
            (coords.x_coord as int, coords.y_coord as int),
        ),
{
    let ghost s = field.cells@;
    let ghost w = field.spec_width();
    let ghost h = field.spec_height();
    let ghost start = (coords.x_coord as int, coords.y_coord as int);
    proof {
        assert(w <= w * h) by (nonlinear_arith)
            requires
                h >= 1,
                w >= 0,
        ;
        assert(h <= w * h) by (nonlinear_arith)
            requires
                w >= 1,
                h >= 0,
        ;
        lemma_reveal_step(s, s, w, h, Seq::empty(), start.0, start.1);
        assert(Seq::<(int, int)>::empty().push(start) =~= seq![start]);
    }
    reveal_cell(field, coords.x_coord, coords.y_coord);
    let mut queue: Vec<(isize, isize)> = Vec::new();
    queue.push((coords.x_coord, coords.y_coord));
    let ghost mut order: Seq<(int, int)> = seq![start];
    let ghost mut parent: Seq<int> = seq![0int];
    let mut head: usize = 0;
    while head < queue.len()
        invariant
            field.wf(),
            field.dimensions@ == old(field).dimensions@,
            field.cell_size == old(field).cell_size,
            field.bomb_count == old(field).bomb_count,
            w == field.spec_width(),
            h == field.spec_height(),
            w <= isize::MAX,
            h <= isize::MAX,
            s.len() == w * h,
            head <= queue@.len(),
            queue@.len() == order.len(),
            forall|k: int|
                0 <= k < order.len() ==> (#[trigger] order[k]) == (
                    queue@[k].0 as int,
                    queue@[k].1 as int,
                ),
            reached_from(s, w, h, start, order, parent),
            revealed_exactly(s, field.cells@, w, h, order),
            forall|k: int|
                0 <= k < head && neighbor_bombs(s, w, h, (#[trigger] order[k]).0, order[k].1)
                    == 0 ==> closed_at(s, w, h, order, order[k]),
        decreases 2 * count_where(field.cells@, hidden_pred()) + queue@.len() - head,
    {
        let (x, y) = queue[head];
        let ghost p = order[head as int];
        let ghost m0 = 2 * count_where(field.cells@, hidden_pred()) + queue@.len();
        proof {
            lemma_revealed_counts(s, field.cells@, w, h, order, x as int, y as int);
        }
        let n = field.count_bomb_neighbors(&Coordinates::new(x, y));
        if n == 0 {
            let mut d: usize = 0;
            while d < 4
                invariant
                    field.wf(),
                    field.dimensions@ == old(field).dimensions@,
                    field.cell_size == old(field).cell_size,
                    field.bomb_count == old(field).bomb_count,
                    w == field.spec_width(),
                    h == field.spec_height(),
                    w <= isize::MAX,
                    h <= isize::MAX,
                    s.len() == w * h,
                    head < queue@.len(),
                    queue@.len() == order.len(),
                    forall|k: int|
                        0 <= k < order.len() ==> (#[trigger] order[k]) == (
                            queue@[k].0 as int,
                            queue@[k].1 as int,
                        ),
                    reached_from(s, w, h, start, order, parent),
                    revealed_exactly(s, field.cells@, w, h, order),
                    forall|k: int|
                        0 <= k < head && neighbor_bombs(s, w, h, (#[trigger] order[k]).0, order[k].1)
                            == 0 ==> closed_at(s, w, h, order, order[k]),
                    p == order[head as int],
                    p == (x as int, y as int),
                    neighbor_bombs(s, w, h, x as int, y as int) == 0,
                    d <= 4,
                    forall|e: int|
                        0 <= e < d ==> {
                            let q = (x + (#[trigger] side_step(e)).0, y + side_step(e).1);
                            in_bounds(w, h, q.0, q.1) && hidden_empty(cell_at(s, w, q.0, q.1))
                                ==> order.contains(q)
                        },
                    2 * count_where(field.cells@, hidden_pred()) + queue@.len() <= m0,
                decreases 4 - d,
            {
                let (dx, dy): (isize, isize) = if d == 0 {
                    (-1, 0)
                } else if d == 1 {
                    (1, 0)
                } else if d == 2 {
                    (0, -1)
                } else {
                    (0, 1)
                };
                assert((dx as int, dy as int) == side_step(d as int));
                let nx = x + dx;
                let ny = y + dy;
                let q = Coordinates::new(nx, ny);
                let opens = match field.get_clone(&q) {
                    Some((CellType::EMPTY(_), CellState::UNKNOWN)) => true,
                    _ => false,
                };
                if opens {
                    let ghost qq = (nx as int, ny as int);
                    proof {
                        lemma_reveal_step(s, field.cells@, w, h, order, qq.0, qq.1);
                        lemma_revealed_counts(s, field.cells@, w, h, order, qq.0, qq.1);
                        lemma_closed_grow(s, w, h, order, qq);
                        lemma_push_contains(order, qq);
                        lemma_push_no_duplicates(order, qq);
                        lemma_index_in_range(w, h, qq.0, qq.1);
                        lemma_count_update(
                            field.cells@,
                            index_of(w, qq.0, qq.1),
                            exposed_value(cell_at(s, w, qq.0, qq.1), neighbor_bombs(s, w, h, qq.0, qq.1)),
                            hidden_pred(),
                        );
                    }
                    reveal_cell(field, nx, ny);
                    queue.push((nx, ny));
                    proof {
                        order = order.push(qq);
                        parent = parent.push(head as int);
                    }
                }
                d += 1;
            }
            proof {
                assert forall|a: int, b: int|
                    #![trigger orth_adjacent(p, (a, b)), cell_at(s, w, a, b)]
                    in_bounds(w, h, a, b) && orth_adjacent(p, (a, b)) && hidden_empty(
                        cell_at(s, w, a, b),
                    ) implies order.contains((a, b)) by {
                    if a == p.0 - 1 {
                        assert(side_step(0) == (-1int, 0int));
                    } else if a == p.0 + 1 {
                        assert(side_step(1) == (1int, 0int));
                    } else if b == p.1 - 1 {
                        assert(side_step(2) == (0int, -1int));
                    } else {
                        assert(side_step(3) == (0int, 1int));
                    }
                }
            }
        }
        head += 1;
    }
    proof {
        assert(flood_witness(s, field.cells@, w, h, start, order, parent));
    }
}

/// Every cell that one flood fill reaches, another from the same start reaches too.
proof fn lemma_reached_in_other(
    s: Seq<Cell>,
    w: int,
    h: int,
    start: (int, int),
    o1: Seq<(int, int)>,
    par1: Seq<int>,
    s3: Seq<Cell>,
    o2: Seq<(int, int)>,
    par2: Seq<int>,
    k: int,
)
    requires
        reached_from(s, w, h, start, o1, par1),
        flood_witness(s, s3, w, h, start, o2, par2),
        0 <= k < o1.len(),
    ensures
        o2.contains(o1[k]),
    decreases k,
{
    if k == 0 {
        assert(o2[0] == o1[0]);
    } else {
        let j = par1[k];
        lemma_reached_in_other(s, w, h, start, o1, par1, s3, o2, par2, j);
        let m = choose|m: int| 0 <= m < o2.len() && o2[m] == o1[j];
        let q = o1[k];
        assert(in_bounds(w, h, q.0, q.1) && hidden_empty(cell_at(s, w, q.0, q.1)));
        assert(orth_adjacent(o2[m], (q.0, q.1)));
        assert(closed_at(s, w, h, o2, o2[m]));
        assert(o2.contains((q.0, q.1)));
    }
}

/// A flood fill from a given start has one outcome: two results of it agree
/// on every cell of the field.
pub proof fn lemma_flood_result_unique(
    s: Seq<Cell>,
    s2: Seq<Cell>,
    s3: Seq<Cell>,
    w: int,
    h: int,
    start: (int, int),
)
    requires
        flood_result(s, s2, w, h, start),
        flood_result(s, s3, w, h, start),
    ensures
        s2.len() == s3.len(),
        forall|x: int, y: int|
            in_bounds(w, h, x, y) ==> #[trigger] cell_at(s2, w, x, y) == cell_at(s3, w, x, y),
{
    let (o1, par1) = choose|o1: Seq<(int, int)>, par1: Seq<int>| flood_witness(s, s2, w, h, start, o1, par1);
    let (o2, par2) = choose|o2: Seq<(int, int)>, par2: Seq<int>| flood_witness(s, s3, w, h, start, o2, par2);
    assert forall|x: int, y: int| in_bounds(w, h, x, y) implies #[trigger] cell_at(s2, w, x, y)
        == cell_at(s3, w, x, y) by {
        if o1.contains((x, y)) {
            let k = choose|k: int| 0 <= k < o1.len() && o1[k] == (x, y);
            lemma_reached_in_other(s, w, h, start, o1, par1, s3, o2, par2, k);
        }
        if o2.contains((x, y)) {
            let k = choose|k: int| 0 <= k < o2.len() && o2[k] == (x, y);
            lemma_reached_in_other(s, w, h, start, o2, par2, s2, o1, par1, k);
        }
    }
}

/// Where a game stands.
#[derive(Clone, Copy, PartialEq, Eq, Structural, Debug)]
pub enum GameStates {
    Playing,
    GameOver,
    GameWon,
}

/// The outcome of the session.
pub struct GameState {
    pub game_state: GameStates,
}

impl GameState {
    pub fn new() -> (r: Self)
        ensures
            r.game_state == GameStates::Playing,
    {
        Self { game_state: GameStates::Playing }
    }
}

/// The flag budget: flags left to place, and the number a reset refills it to.
pub struct FlagCount {
    pub refill_count: usize,
    pub count: usize,
}

impl FlagCount {
    pub open spec fn wf(&self) -> bool {
        self.count <= self.refill_count
    }

    pub fn new(count: usize) -> (r: Self)
        ensures
            r.refill_count == count,
            r.count == count,
            r.wf(),
    {
        Self { refill_count: count, count }
    }
}

/// What a flag toggle did.
#[derive(Clone, Copy, PartialEq, Eq, Structural, Debug)]
pub enum FlagToggle {
    /// Nothing: the game is over, the position is off the field, or the cell is revealed.
    Ignored,
    /// A flag was placed on a hidden cell.
    Placed,
    /// A flag was taken back; the cell is hidden again.
    Removed,
    /// The cell is hidden but no flag is left to place.
    NoFlagsLeft,
}

/// The cells, the flags left and the report after toggling the flag at (x, y).
pub open spec fn toggle_flag_spec(
    s: Seq<Cell>,
    w: int,
    h: int,
    playing: bool,
    remaining: nat,
    x: int,
    y: int,
) -> (Seq<Cell>, nat, FlagToggle) {
    let c = cell_at(s, w, x, y);
    if !playing || !in_bounds(w, h, x, y) || c.1 == CellState::EXPOSED {
        (s, remaining, FlagToggle::Ignored)
    } else if c.1 == CellState::FLAGGED {
        (s.update(index_of(w, x, y), (c.0, CellState::UNKNOWN)), remaining + 1, FlagToggle::Removed)
    } else if remaining == 0 {
        (s, remaining, FlagToggle::NoFlagsLeft)
    } else {
        (
            s.update(index_of(w, x, y), (c.0, CellState::FLAGGED)),
            (remaining - 1) as nat,
            FlagToggle::Placed,
        )
    }
}

/// Every bomb carries a flag.
pub open spec fn all_bombs_flagged(s: Seq<Cell>) -> bool {
    forall|i: int| 0 <= i < s.len() && is_bomb(#[trigger] s[i]) ==> s[i].1 == CellState::FLAGGED
}

/// Reveals the cell at `coords`. Nothing happens when the game is over, the
/// position is off the field, or the cell is flagged or revealed. A bomb ends
/// the game, leaving the field as it is; an empty cell is flood filled.
pub fn process_cell(coords: Coordinates, field: &mut Field, game_state: &mut GameState)
    requires
        old(field).wf(),
    ensures
        final(field).wf(),
        final(field).dimensions@ == old(field).dimensions@,
        final(field).cell_size == old(field).cell_size,
        final(field).bomb_count == old(field).bomb_count,
        ({
            let x = coords.x_coord as int;
            let y = coords.y_coord as int;
            let c = old(field).spec_cell(x, y);
            if old(game_state).game_state != GameStates::Playing || !old(field).spec_in_bounds(x, y)
                || c.1 != CellState::UNKNOWN {
                &&& final(field).cells@ == old(field).cells@
                &&& final(game_state).game_state == old(game_state).game_state
            } else if is_bomb(c) {
                &&& final(field).cells@ == old(field).cells@
                &&& final(game_state).game_state == GameStates::GameOver
            } else {
                &&& flood_result(
                    old(field).cells@,
                    final(field).cells@,
                    old(field).spec_width(),
                    old(field).spec_height(),
                    (x, y),
                )
                &&& final(game_state).game_state == GameStates::Playing
            }
        }),
{
    if game_state.game_state != GameStates::Playing {
        return;
    }
    match field.get_clone(&coords) {
        Some((CellType::EMPTY(_), CellState::UNKNOWN)) => {
            flood_fill(field, &coords);
        },
        Some((CellType::BOMB, CellState::UNKNOWN)) => {
            game_state.game_state = GameStates::GameOver;
        },
        _ => {},
    }
}

/// Places or takes back a flag at `coords`, spending or returning one flag of
/// the budget; with no flag left, placing one is refused.
pub fn toggle_flag(
    coords: &Coordinates,
    field: &mut Field,
    game_state: &GameState,
    flag_count: &mut FlagCount,
) -> (r: FlagToggle)
    requires
        old(field).wf(),
        old(flag_count).wf(),
        toggle_flag_spec(
            old(field).cells@,
            old(field).spec_width(),
            old(field).spec_height(),
            game_state.game_state == GameStates::Playing,
            old(flag_count).count as nat,
            coords.x_coord as int,
            coords.y_coord as int,
        ).1 <= old(flag_count).refill_count,
    ensures
        final(field).wf(),
        final(flag_count).wf(),
        final(field).dimensions@ == old(field).dimensions@,
        final(field).cell_size == old(field).cell_size,
        final(field).bomb_count == old(field).bomb_count,
        final(flag_count).refill_count == old(flag_count).refill_count,
        (final(field).cells@, final(flag_count).count as nat, r) == toggle_flag_spec(
            old(field).cells@,
            old(field).spec_width(),
            old(field).spec_height(),
            game_state.game_state == GameStates::Playing,
            old(flag_count).count as nat,
            coords.x_coord as int,
            coords.y_coord as int,
        ),
{
    if game_state.game_state != GameStates::Playing {
        return FlagToggle::Ignored;
    }
    match field.get_clone(coords) {
        Some((_, CellState::FLAGGED)) => {
            flag_count.count = flag_count.count + 1;
            field.set_cell_state(coords, CellState::UNKNOWN);
            FlagToggle::Removed
        },
        Some((_, CellState::UNKNOWN)) => {
            if flag_count.count == 0 {
                FlagToggle::NoFlagsLeft
            } else {
                flag_count.count = flag_count.count - 1;
                field.set_cell_state(coords, CellState::FLAGGED);
                FlagToggle::Placed
            }
        },
        _ => FlagToggle::Ignored,
    }
}

/// Declares the game won when it is being played and every bomb carries a
/// flag; returns whether it did.
pub fn check_for_win(game_state: &mut GameState, field: &Field) -> (r: bool)
    ensures
        r == (old(game_state).game_state == GameStates::Playing && all_bombs_flagged(
            field.cells@,
        )),
        final(game_state).game_state == if r {
            GameStates::GameWon
        } else {
            old(game_state).game_state
        },
{
    if game_state.game_state != GameStates::Playing {
        return false;
    }
    let n = field.cells.len();
    let mut i: usize = 0;
    while i < n
        invariant
            n == field.cells@.len(),
            i <= n,
            forall|j: int|
                0 <= j < i && is_bomb(#[trigger] field.cells@[j]) ==> field.cells@[j].1
                    == CellState::FLAGGED,
        decreases n - i,
    {
        match field.cells[i] {
            (CellType::BOMB, CellState::UNKNOWN) | (CellType::BOMB, CellState::EXPOSED) => {
                return false;
            },
            _ => {},
        }
        i += 1;
    }
    game_state.game_state = GameStates::GameWon;
    true
}

/// Starts a new game on the same field: fresh bombs, play resumed, flag
/// budget refilled.
pub fn reset_session(field: &mut Field, game_state: &mut GameState, flag_count: &mut FlagCount)
    requires
        old(field).wf(),
    ensures
        final(field).wf(),
        final(field).dimensions@ == old(field).dimensions@,
        final(field).cell_size == old(field).cell_size,
        final(field).bomb_count == old(field).bomb_count,
        freshly_mined(final(field).cells@, old(field).bomb_count as nat),
        final(game_state).game_state == GameStates::Playing,
        final(flag_count).refill_count == old(flag_count).refill_count,
        final(flag_count).count == old(flag_count).refill_count,
        final(flag_count).wf(),
{
    field.reset();
    game_state.game_state = GameStates::Playing;
    flag_count.count = flag_count.refill_count;
}

/// Flagging a hidden cell and then unflagging it gives back the same cells
/// and the same number of flags left.
pub proof fn lemma_toggle_flag_twice(s: Seq<Cell>, w: int, h: int, remaining: nat, x: int, y: int)
    requires
        s.len() == w * h,
        in_bounds(w, h, x, y),
        cell_at(s, w, x, y).1 == CellState::UNKNOWN,
        remaining > 0,
    ensures
        ({
            let first = toggle_flag_spec(s, w, h, true, remaining, x, y);
            let second = toggle_flag_spec(first.0, w, h, true, first.1, x, y);
            &&& first.2 == FlagToggle::Placed
            &&& second.2 == FlagToggle::Removed
            &&& second.0 == s
            &&& second.1 == remaining
        }),
{
    lemma_index_in_range(w, h, x, y);
    let first = toggle_flag_spec(s, w, h, true, remaining, x, y);
    assert(toggle_flag_spec(first.0, w, h, true, first.1, x, y).0 =~= s);
}

/// With no flag left, trying to flag a hidden cell is refused and changes nothing.
pub proof fn lemma_no_flags_left(s: Seq<Cell>, w: int, h: int, x: int, y: int)
    requires
        in_bounds(w, h, x, y),
        cell_at(s, w, x, y).1 == CellState::UNKNOWN,
    ensures
        toggle_flag_spec(s, w, h, true, 0, x, y) == (s, 0nat, FlagToggle::NoFlagsLeft),
{
}

/// A flag on a cell without a bomb has no bearing on winning: whatever that
/// cell shows, every bomb is flagged exactly when it was before.
pub proof fn lemma_flag_off_bomb_irrelevant(s: Seq<Cell>, i: int, v: CellState)
    requires
        0 <= i < s.len(),
        !is_bomb(s[i]),
    ensures
        all_bombs_flagged(s.update(i, (s[i].0, v))) == all_bombs_flagged(s),
{
    let t = s.update(i, (s[i].0, v));
    if all_bombs_flagged(s) {
        assert forall|j: int| 0 <= j < t.len() && is_bomb(#[trigger] t[j]) implies t[j].1
            == CellState::FLAGGED by {
            assert(j != i && t[j] == s[j]);
        }
    }
    if all_bombs_flagged(t) {
        assert forall|j: int| 0 <= j < s.len() && is_bomb(#[trigger] s[j]) implies s[j].1
            == CellState::FLAGGED by {
            assert(j != i && t[j] == s[j]);
        }
    }
}

} // verus!
