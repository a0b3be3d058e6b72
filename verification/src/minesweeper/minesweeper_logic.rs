use vstd::prelude::*;

use crate::minesweeper::error::MinesweeperError;
use crate::minesweeper::parsers::parser::Metadata;

verus! {

/// The grid state of one game: cells, a parallel dirty grid, and the
/// three counters the progress metric reads.
#[derive(Debug)]
pub struct Board {
    pub fields: Vec<Vec<Field>>,
    pub changed_fields: Vec<Vec<bool>>,
    pub metadata: Metadata,
    pub open_fields: u32,
    pub mine_count: u32,
    pub total_fields: u32,
}

/// One cell: its adjacent-mine count (0 for a mine), its visible state,
/// and whether it is a mine. The mine flag is set at construction and
/// never changes afterwards.
#[derive(Clone, Copy, Debug, PartialEq, Eq, Structural)]
pub struct Field {
    pub value: u8,
    pub field_state: FieldState,
    pub mine: bool,
}

#[derive(Clone, Copy, Debug, PartialEq, Eq, Structural)]
pub enum FieldState {
    Open,
    Closed,
    Flagged,
    UnsureFlagged,
}

/// The cell grid as a sequence of rows.
pub open spec fn vgrid(v: Seq<Vec<Field>>) -> Seq<Seq<Field>> {
    v.map_values(|r: Vec<Field>| r@)
}

pub open spec fn grid_dims_ok(g: Seq<Seq<Field>>, w: int, h: int) -> bool {
    g.len() == h && (forall|y: int| 0 <= y < h ==> (#[trigger] g[y]).len() == w)
}

pub open spec fn marks_dims_ok(m: Seq<Seq<bool>>, w: int, h: int) -> bool {
    m.len() == h && (forall|y: int| 0 <= y < h ==> (#[trigger] m[y]).len() == w)
}

pub open spec fn cell_in_bounds(g: Seq<Seq<Field>>, x: int, y: int) -> bool {
    0 <= y < g.len() && 0 <= x < g[y].len()
}

/// 1 when (x, y) is an in-bounds mine, else 0.
pub open spec fn mine_at(g: Seq<Seq<Field>>, x: int, y: int) -> int {
    if cell_in_bounds(g, x, y) && g[y][x].mine {
        1
    } else {
        0
    }
}

/// The number of mines among the 8 neighbours of (x, y).
pub open spec fn adj_mines(g: Seq<Seq<Field>>, x: int, y: int) -> int {
    mine_at(g, x - 1, y - 1) + mine_at(g, x, y - 1) + mine_at(g, x + 1, y - 1) + mine_at(
        g,
        x - 1,
        y,
    ) + mine_at(g, x + 1, y) + mine_at(g, x - 1, y + 1) + mine_at(g, x, y + 1) + mine_at(
        g,
        x + 1,
        y + 1,
    )
}

/// Every non-mine cell's value is its adjacent-mine count; a mine's
/// value is 0 (mines never accumulate a count).
pub open spec fn values_ok(g: Seq<Seq<Field>>) -> bool {
    forall|x: int, y: int|
        #[trigger] cell_in_bounds(g, x, y) ==> (if g[y][x].mine {
            g[y][x].value == 0
        } else {
            g[y][x].value == adj_mines(g, x, y)
        })
}

pub open spec fn row_open_count(r: Seq<Field>) -> int
    decreases r.len(),
{
    if r.len() == 0 {
        0
    } else {
        row_open_count(r.drop_last()) + (if r.last().field_state == FieldState::Open {
            1int
        } else {
            0int
        })
    }
}

pub open spec fn grid_open_count(g: Seq<Seq<Field>>) -> int
    decreases g.len(),
{
    if g.len() == 0 {
        0
    } else {
        grid_open_count(g.drop_last()) + row_open_count(g.last())
    }
}

pub open spec fn row_mine_count(r: Seq<Field>) -> int
    decreases r.len(),
{
    if r.len() == 0 {
        0
    } else {
        row_mine_count(r.drop_last()) + (if r.last().mine {
            1int
        } else {
            0int
        })
    }
}

pub open spec fn grid_mine_count(g: Seq<Seq<Field>>) -> int
    decreases g.len(),
{
    if g.len() == 0 {
        0
    } else {
        grid_mine_count(g.drop_last()) + row_mine_count(g.last())
    }
}

/// The same cell with another visible state.
pub open spec fn with_state(f: Field, s: FieldState) -> Field {
    Field { value: f.value, field_state: s, mine: f.mine }
}

impl Board {
    pub open spec fn grid(&self) -> Seq<Seq<Field>> {
        vgrid(self.fields@)
    }

    pub open spec fn marks(&self) -> Seq<Seq<bool>> {
        self.changed_fields@.map_values(|r: Vec<bool>| r@)
    }

    /// Well-formedness: the two grids match the metadata's dimensions,
    /// the totals are what they claim, and every cell value is the true
    /// adjacent-mine count.
    pub open spec fn wf(&self) -> bool {
        &&& self.metadata.wf()
        &&& grid_dims_ok(self.grid(), self.metadata.x_size as int, self.metadata.y_size as int)
        &&& marks_dims_ok(self.marks(), self.metadata.x_size as int, self.metadata.y_size as int)
        &&& self.total_fields == self.metadata.x_size * self.metadata.y_size
        &&& self.mine_count == grid_mine_count(self.grid())
        &&& self.mine_count <= self.total_fields
        &&& values_ok(self.grid())
    }
}

pub proof fn lemma_row_counts_bound(r: Seq<Field>)
    ensures
        0 <= row_open_count(r) <= r.len(),
        0 <= row_mine_count(r) <= r.len(),
    decreases r.len(),
{
    if r.len() > 0 {
        lemma_row_counts_bound(r.drop_last());
    }
}

pub proof fn lemma_grid_counts_bound(g: Seq<Seq<Field>>, w: int, h: int)
    requires
        grid_dims_ok(g, w, h),
        0 <= w,
    ensures
        0 <= grid_open_count(g) <= w * h,
        0 <= grid_mine_count(g) <= w * h,
    decreases g.len(),
{
    if g.len() > 0 {
        assert(grid_dims_ok(g.drop_last(), w, h - 1)) by {
            assert(forall|y: int| 0 <= y < h - 1 ==> g.drop_last()[y] == g[y]);
        }
        lemma_grid_counts_bound(g.drop_last(), w, h - 1);
        lemma_row_counts_bound(g.last());
        assert(w * h == w * (h - 1) + w) by (nonlinear_arith);
    }
}

/// Replacing one cell changes the row counts by the difference of the
/// old and new cell.
pub proof fn lemma_row_counts_update(r: Seq<Field>, i: int, f: Field)
    requires
        0 <= i < r.len(),
    ensures
        row_open_count(r.update(i, f)) == row_open_count(r) - (if r[i].field_state
            == FieldState::Open {
            1int
        } else {
            0int
        }) + (if f.field_state == FieldState::Open {
            1int
        } else {
            0int
        }),
        row_mine_count(r.update(i, f)) == row_mine_count(r) - (if r[i].mine {
            1int
        } else {
            0int
        }) + (if f.mine {
            1int
        } else {
            0int
        }),
    decreases r.len(),
{
    let u = r.update(i, f);
    if i == r.len() - 1 {
        assert(u.drop_last() =~= r.drop_last());
        assert(u.last() == f);
    } else {
        assert(u.drop_last() =~= r.drop_last().update(i, f));
        assert(u.last() == r.last());
        lemma_row_counts_update(r.drop_last(), i, f);
    }
}

/// Replacing one cell changes the grid counts by the difference of the
/// old and new cell.
pub proof fn lemma_grid_counts_update(g: Seq<Seq<Field>>, x: int, y: int, f: Field)
    requires
        0 <= y < g.len(),
        0 <= x < g[y].len(),
    ensures
        grid_open_count(g.update(y, g[y].update(x, f))) == grid_open_count(g) - (if g[y][x].field_state
            == FieldState::Open {
            1int
        } else {
            0int
        }) + (if f.field_state == FieldState::Open {
            1int
        } else {
            0int
        }),
        grid_mine_count(g.update(y, g[y].update(x, f))) == grid_mine_count(g) - (if g[y][x].mine {
            1int
        } else {
            0int
        }) + (if f.mine {
            1int
        } else {
            0int
        }),
    decreases g.len(),
{
    let u = g.update(y, g[y].update(x, f));
    if y == g.len() - 1 {
        assert(u.drop_last() =~= g.drop_last());
        assert(u.last() == g[y].update(x, f));
        lemma_row_counts_update(g[y], x, f);
    } else {
        assert(u.drop_last() =~= g.drop_last().update(y, g.drop_last()[y].update(x, f)));
        assert(u.last() == g.last());
        lemma_grid_counts_update(g.drop_last(), x, y, f);
    }
}

/// Changing only a cell's visible state keeps the board well-formed:
/// mine placement, values, dimensions and the mine count are untouched.
pub proof fn lemma_state_change_keeps_wf(b0: Board, b1: Board, x: int, y: int, s: FieldState)
    requires
        b0.wf(),
        0 <= x < b0.metadata.x_size,
        0 <= y < b0.metadata.y_size,
        b1.metadata == b0.metadata,
        b1.mine_count == b0.mine_count,
        b1.total_fields == b0.total_fields,
        b1.grid() == b0.grid().update(y, b0.grid()[y].update(x, with_state(b0.grid()[y][x], s))),
        marks_dims_ok(b1.marks(), b0.metadata.x_size as int, b0.metadata.y_size as int),
    ensures
        b1.wf(),
{
    let g0 = b0.grid();
    let g1 = b1.grid();
    let f = with_state(g0[y][x], s);
    assert(grid_dims_ok(g1, b0.metadata.x_size as int, b0.metadata.y_size as int)) by {
        assert(forall|yy: int| 0 <= yy < g1.len() && yy != y ==> g1[yy] == g0[yy]);
        assert(g1[y].len() == g0[y].len());
    }
    lemma_grid_counts_update(g0, x, y, f);
    assert(values_ok(g1)) by {
        assert(forall|xx: int, yy: int|
            cell_in_bounds(g1, xx, yy) ==> cell_in_bounds(g0, xx, yy) && (#[trigger] g1[yy][xx]).mine
                == g0[yy][xx].mine && g1[yy][xx].value == g0[yy][xx].value);
        assert(forall|xx: int, yy: int|
            #[trigger] cell_in_bounds(g1, xx, yy) ==> adj_mines(g1, xx, yy) == adj_mines(
                g0,
                xx,
                yy,
            ));
    }
}

impl Field {
    /// A fresh cell: value 0, closed, not a mine.
    pub fn new() -> (r: Self)
        ensures
            r == (Field { value: 0u8, field_state: FieldState::Closed, mine: false }),
    {
        Field { value: 0, field_state: FieldState::Closed, mine: false }
    }
}

/// A grid holding only fresh cells has no open cells and no mines.
pub proof fn lemma_grid_counts_zero(g: Seq<Seq<Field>>)
    requires
        forall|y: int|
            0 <= y < g.len() ==> forall|x: int|
                0 <= x < (#[trigger] g[y]).len() ==> !(#[trigger] g[y][x]).mine && g[y][x].field_state
                    != FieldState::Open,
    ensures
        grid_open_count(g) == 0,
        grid_mine_count(g) == 0,
    decreases g.len(),
{
    if g.len() > 0 {
        lemma_grid_counts_zero(g.drop_last());
        lemma_row_counts_zero(g.last());
    }
}

pub proof fn lemma_row_counts_zero(r: Seq<Field>)
    requires
        forall|x: int|
            0 <= x < r.len() ==> !(#[trigger] r[x]).mine && r[x].field_state != FieldState::Open,
    ensures
        row_open_count(r) == 0,
        row_mine_count(r) == 0,
    decreases r.len(),
{
    if r.len() > 0 {
        lemma_row_counts_zero(r.drop_last());
    }
}

/// Extending a prefix of a coordinate list by its next element extends
/// what the prefix contains by exactly that element.
pub proof fn lemma_contains_subrange_step(s: Seq<(i32, i32)>, k: int)
    requires
        0 <= k < s.len(),
    ensures
        forall|d: (i32, i32)|
            s.subrange(0, k + 1).contains(d) <==> (s.subrange(0, k).contains(d) || d == s[k]),
{
    assert(s.subrange(0, k + 1) =~= s.subrange(0, k).push(s[k]));
    assert forall|d: (i32, i32)| #[trigger] s.subrange(0, k + 1).contains(d) implies (s.subrange(
        0,
        k,
    ).contains(d) || d == s[k]) by {
        let kk = choose|kk: int| 0 <= kk < k + 1 && #[trigger] s.subrange(0, k + 1)[kk] == d;
        if kk < k {
            assert(s.subrange(0, k)[kk] == d);
        }
    }
    assert forall|d: (i32, i32)| s.subrange(0, k).contains(d) || d == s[k] implies #[trigger] s
        .subrange(0, k + 1).contains(d) by {
        if s.subrange(0, k).contains(d) {
            let kk = choose|kk: int| 0 <= kk < k && #[trigger] s.subrange(0, k)[kk] == d;
            assert(s.subrange(0, k + 1)[kk] == d);
        } else {
            assert(s.subrange(0, k + 1)[k] == d);
        }
    }
}

/// The mine layout alone: every listed cell mined, all cells closed
/// with value 0.
pub open spec fn mine_flag_grid(md: Metadata, ms: Seq<(i32, i32)>) -> Seq<Seq<Field>> {
    Seq::new(
        md.y_size as nat,
        |y: int|
            Seq::new(
                md.x_size as nat,
                |x: int|
                    Field {
                        value: 0u8,
                        field_state: FieldState::Closed,
                        mine: ms.contains((x as i32, y as i32)),
                    },
            ),
    )
}

/// The starting board of a mine layout as a value: all cells closed,
/// the listed cells mined, and every other cell valued with its
/// 8-neighbour mine count.
pub open spec fn start_grid(md: Metadata, ms: Seq<(i32, i32)>) -> Seq<Seq<Field>> {
    Seq::new(
        md.y_size as nat,
        |y: int|
            Seq::new(
                md.x_size as nat,
                |x: int|
                    Field {
                        value: (if ms.contains((x as i32, y as i32)) {
                            0int
                        } else {
                            adj_mines(mine_flag_grid(md, ms), x, y)
                        }) as u8,
                        field_state: FieldState::Closed,
                        mine: ms.contains((x as i32, y as i32)),
                    },
            ),
    )
}

/// A dirty grid of the metadata's dimensions with every mark set.
pub open spec fn full_marks(md: Metadata) -> Seq<Seq<bool>> {
    Seq::new(md.y_size as nat, |y: int| Seq::new(md.x_size as nat, |x: int| true))
}

/// An (x, y) pair that lies on a board of the given metadata.
pub open spec fn mine_in_bounds(m: Metadata, c: (i32, i32)) -> bool {
    0 <= c.0 < m.x_size && 0 <= c.1 < m.y_size
}

impl Board {
    /// Builds the starting board for a mine layout: width x height
    /// cells, all closed and dirty, the listed cells mined, every other
    /// cell's value its adjacent-mine count, and the counters set.
    /// Fails exactly when a mine is out of bounds or listed twice.
    #[verifier::rlimit(100)]
    pub fn with_mines(metadata: &Metadata, mines: &Vec<(i32, i32)>) -> (r: Result<
        Board,
        MinesweeperError,
    >)
        requires
            metadata.wf(),
        ensures
            r is Ok <==> (forall|k: int|
                0 <= k < mines@.len() ==> mine_in_bounds(*metadata, #[trigger] mines@[k]))
                && (forall|k1: int, k2: int|
                0 <= k1 < k2 < mines@.len() ==> #[trigger] mines@[k1] != #[trigger] mines@[k2]),
            r matches Err(e) ==> e == MinesweeperError::MalformedField,
            r matches Ok(b) ==> {
                &&& b.wf()
                &&& b.metadata == *metadata
                &&& b.open_fields == 0
                &&& b.mine_count == mines@.len()
                &&& b.grid() == start_grid(*metadata, mines@)
                &&& b.marks() == full_marks(*metadata)
                &&& forall|x: int, y: int|
                    #[trigger] cell_in_bounds(b.grid(), x, y) ==> (b.grid()[y][x].mine
                        <==> mines@.contains((x as i32, y as i32)))
                        && b.grid()[y][x].field_state == FieldState::Closed
                &&& forall|x: int, y: int|
                    0 <= y < b.marks().len() && 0 <= x < b.marks()[y].len()
                        ==> #[trigger] b.marks()[y][x]
            },
    {
        let w = metadata.x_size as usize;
        let h = metadata.y_size as usize;
        let mut fields: Vec<Vec<Field>> = Vec::new();
        let mut changed: Vec<Vec<bool>> = Vec::new();
        for yy in 0..h
            invariant
                fields@.len() == yy,
                changed@.len() == yy,
                forall|y: int| 0 <= y < yy ==> (#[trigger] fields@[y])@.len() == w,
                forall|y: int| 0 <= y < yy ==> (#[trigger] changed@[y])@.len() == w,
                forall|x: int, y: int|
                    0 <= y < yy && 0 <= x < w ==> (#[trigger] fields@[y]@[x]) == (Field {
                        value: 0u8,
                        field_state: FieldState::Closed,
                        mine: false,
                    }),
                forall|x: int, y: int| 0 <= y < yy && 0 <= x < w ==> (#[trigger] changed@[y]@[x]),
        {
            let mut row: Vec<Field> = Vec::new();
            let mut crow: Vec<bool> = Vec::new();
            for xx in 0..w
                invariant
                    row@.len() == xx,
                    crow@.len() == xx,
                    forall|x: int|
                        0 <= x < xx ==> (#[trigger] row@[x]) == (Field {
                            value: 0u8,
                            field_state: FieldState::Closed,
                            mine: false,
                        }),
                    forall|x: int| 0 <= x < xx ==> (#[trigger] crow@[x]),
            {
                row.push(Field { value: 0, field_state: FieldState::Closed, mine: false });
                crow.push(true);
            }
            fields.push(row);
            changed.push(crow);
        }
        proof {
            lemma_grid_counts_zero(vgrid(fields@));
        }
        // mark the mines, rejecting out-of-bounds and repeated cells
        let mut mine_total: u32 = 0;
        let n_mines = mines.len();
        for k in 0..n_mines
            invariant
                metadata.wf(),
                n_mines == mines@.len(),
                w == metadata.x_size as usize,
                h == metadata.y_size as usize,
                fields@.len() == h,
                forall|y: int| 0 <= y < h ==> (#[trigger] fields@[y])@.len() == w,
                forall|x: int, y: int|
                    0 <= y < h && 0 <= x < w ==> (#[trigger] fields@[y]@[x]).value == 0
                        && fields@[y]@[x].field_state == FieldState::Closed,
                forall|x: int, y: int|
                    0 <= y < h && 0 <= x < w ==> ((#[trigger] fields@[y]@[x]).mine
                        <==> mines@.subrange(0, k as int).contains((x as i32, y as i32))),
                forall|k1: int|
                    0 <= k1 < k ==> mine_in_bounds(*metadata, #[trigger] mines@[k1]),
                forall|k1: int, k2: int|
                    0 <= k1 < k2 < k ==> #[trigger] mines@[k1] != #[trigger] mines@[k2],
                mine_total == k,
                mine_total == grid_mine_count(vgrid(fields@)),
        {
            let (mx, my) = mines[k];
            if mx < 0 || mx >= metadata.x_size || my < 0 || my >= metadata.y_size {
                return Err(MinesweeperError::MalformedField);
            }
            let ux = mx as usize;
            let uy = my as usize;
            if fields[uy][ux].mine {
                proof {
                    let ghost pre = mines@.subrange(0, k as int);
                    assert(pre.contains((mx, my)));
                    let ghost k1 = choose|k1: int| 0 <= k1 < k && pre[k1] == (mx, my);
                    assert(mines@[k1] == mines@[k as int]);
                }
                return Err(MinesweeperError::MalformedField);
            }
            let ghost gpre = vgrid(fields@);
            let cell = fields[uy][ux];
            fields[uy][ux] = Field { value: 0, field_state: FieldState::Closed, mine: true };
            proof {
                assert(vgrid(fields@) =~~= gpre.update(
                    uy as int,
                    gpre[uy as int].update(
                        ux as int,
                        Field { value: 0u8, field_state: FieldState::Closed, mine: true },
                    ),
                ));
                lemma_grid_counts_update(
                    gpre,
                    ux as int,
                    uy as int,
                    Field { value: 0u8, field_state: FieldState::Closed, mine: true },
                );
                assert(forall|x: int, y: int|
                    0 <= y < h && 0 <= x < w ==> ((#[trigger] fields@[y]@[x]).mine <==> (
                    gpre[y][x].mine || (x == ux as int && y == uy as int))));
                lemma_contains_subrange_step(mines@, k as int);
                assert(forall|x: int, y: int|
                    0 <= y < h && 0 <= x < w ==> ((#[trigger] fields@[y]@[x]).mine
                        <==> mines@.subrange(0, k + 1).contains((x as i32, y as i32))));
                lemma_grid_counts_bound(vgrid(fields@), w as int, h as int);
                assert((w as int) * (h as int) <= 1000 * 1000) by (nonlinear_arith)
                    requires 0 <= w <= 1000 && 0 <= h <= 1000;
                assert(!mines@.subrange(0, k as int).contains((mx, my)));
                assert forall|k1: int| 0 <= k1 < k implies #[trigger] mines@[k1] != mines@[k as int] by {
                    if mines@[k1] == mines@[k as int] {
                        assert(mines@.subrange(0, k as int)[k1] == (mx, my));
                    }
                }
            }
            mine_total = mine_total + 1;
        }
        proof {
            assert(mines@.subrange(0, n_mines as int) =~= mines@);
        }
        // fill in the adjacent-mine counts, reading only mine flags
        let ghost g1 = vgrid(fields@);
        for yy in 0..h
            invariant
                metadata.wf(),
                w == metadata.x_size as usize,
                h == metadata.y_size as usize,
                fields@.len() == h,
                g1.len() == h,
                forall|y: int| 0 <= y < h ==> (#[trigger] fields@[y])@.len() == w,
                forall|y: int| 0 <= y < h ==> (#[trigger] g1[y]).len() == w,
                forall|x: int, y: int|
                    0 <= y < h && 0 <= x < w ==> (#[trigger] fields@[y]@[x]).mine == g1[y][x].mine
                        && fields@[y]@[x].field_state == FieldState::Closed,
                forall|x: int, y: int|
                    0 <= y < h && 0 <= x < w && y < yy ==> (#[trigger] fields@[y]@[x]).value == (
                    if g1[y][x].mine {
                        0int
                    } else {
                        adj_mines(g1, x, y)
                    }),
                forall|x: int, y: int|
                    0 <= y < h && 0 <= x < w && y >= yy ==> (#[trigger] fields@[y]@[x]).value == 0,
                grid_mine_count(vgrid(fields@)) == grid_mine_count(g1),
        {
            for xx in 0..w
                invariant
                    metadata.wf(),
                    w == metadata.x_size as usize,
                    h == metadata.y_size as usize,
                    yy < h,
                    fields@.len() == h,
                    g1.len() == h,
                    forall|y: int| 0 <= y < h ==> (#[trigger] fields@[y])@.len() == w,
                    forall|y: int| 0 <= y < h ==> (#[trigger] g1[y]).len() == w,
                    forall|x: int, y: int|
                        0 <= y < h && 0 <= x < w ==> (#[trigger] fields@[y]@[x]).mine == g1[y][x].mine
                            && fields@[y]@[x].field_state == FieldState::Closed,
                    forall|x: int, y: int|
                        0 <= y < h && 0 <= x < w && (y < yy || (y == yy && x < xx)) ==> (
                        #[trigger] fields@[y]@[x]).value == (if g1[y][x].mine {
                            0int
                        } else {
                            adj_mines(g1, x, y)
                        }),
                    forall|x: int, y: int|
                        0 <= y < h && 0 <= x < w && (y > yy || (y == yy && x >= xx)) ==> (
                        #[trigger] fields@[y]@[x]).value == 0,
                    grid_mine_count(vgrid(fields@)) == grid_mine_count(g1),
            {
                let is_mine = fields[yy][xx].mine;
                if !is_mine {
                    let mut cnt: u8 = 0;
                    if yy > 0 && xx > 0 && fields[yy - 1][xx - 1].mine {
                        cnt = cnt + 1;
                    }
                    if yy > 0 && fields[yy - 1][xx].mine {
                        cnt = cnt + 1;
                    }
                    if yy > 0 && xx + 1 < w && fields[yy - 1][xx + 1].mine {
                        cnt = cnt + 1;
                    }
                    if xx > 0 && fields[yy][xx - 1].mine {
                        cnt = cnt + 1;
                    }
                    if xx + 1 < w && fields[yy][xx + 1].mine {
                        cnt = cnt + 1;
                    }
                    if yy + 1 < h && xx > 0 && fields[yy + 1][xx - 1].mine {
                        cnt = cnt + 1;
                    }
                    if yy + 1 < h && fields[yy + 1][xx].mine {
                        cnt = cnt + 1;
                    }
                    if yy + 1 < h && xx + 1 < w && fields[yy + 1][xx + 1].mine {
                        cnt = cnt + 1;
                    }
                    assert(cnt == adj_mines(g1, xx as int, yy as int));
                    let ghost gpre = vgrid(fields@);
                    fields[yy][xx] = Field {
                        value: cnt,
                        field_state: FieldState::Closed,
                        mine: false,
                    };
                    proof {
                        assert(vgrid(fields@) =~~= gpre.update(
                            yy as int,
                            gpre[yy as int].update(
                                xx as int,
                                Field { value: cnt, field_state: FieldState::Closed, mine: false },
                            ),
                        ));
                        lemma_grid_counts_update(
                            gpre,
                            xx as int,
                            yy as int,
                            Field { value: cnt, field_state: FieldState::Closed, mine: false },
                        );
                    }
                }
            }
        }
        proof {
            assert(metadata.x_size * metadata.y_size <= 1000 * 1000) by (nonlinear_arith)
                requires 1 <= metadata.x_size <= 1000 && 1 <= metadata.y_size <= 1000;
        }
        let board = Board {
            fields,
            changed_fields: changed,
            metadata: *metadata,
            open_fields: 0,
            mine_count: mine_total,
            total_fields: (metadata.x_size * metadata.y_size) as u32,
        };
        proof {
            let g = board.grid();
            assert(forall|y: int| 0 <= y < h ==> (#[trigger] g[y]) == fields@[y]@);
            assert(grid_dims_ok(g, metadata.x_size as int, metadata.y_size as int));
            assert(forall|y: int| 0 <= y < h ==> (#[trigger] board.marks()[y]) == changed@[y]@);
            assert(marks_dims_ok(board.marks(), metadata.x_size as int, metadata.y_size as int));
            assert(forall|x: int, y: int|
                mine_at(g, x, y) == mine_at(g1, x, y) && #[trigger] cell_in_bounds(g, x, y)
                    == cell_in_bounds(g1, x, y));
            assert(forall|x: int, y: int|
                #[trigger] cell_in_bounds(g, x, y) ==> adj_mines(g, x, y) == adj_mines(g1, x, y));
            assert(values_ok(g));
            lemma_grid_counts_bound(g, metadata.x_size as int, metadata.y_size as int);
            assert(forall|x: int, y: int|
                #[trigger] cell_in_bounds(g, x, y) ==> (g[y][x].mine <==> mines@.contains(
                    (x as i32, y as i32),
                )));
            let sg = start_grid(*metadata, mines@);
            let mg = mine_flag_grid(*metadata, mines@);
            assert forall|x: int, y: int| #[trigger] cell_in_bounds(g, x, y) implies adj_mines(
                g,
                x,
                y,
            ) == adj_mines(mg, x, y) by {
                assert(forall|xx: int, yy: int| mine_at(g, xx, yy) == mine_at(mg, xx, yy));
            }
            assert forall|y: int| 0 <= y < metadata.y_size implies g[y] =~= sg[y] by {
                assert forall|x: int| 0 <= x < metadata.x_size implies g[y][x] == sg[y][x] by {
                    assert(cell_in_bounds(g, x, y));
                }
            }
            assert(g =~~= sg);
            assert forall|y: int| 0 <= y < metadata.y_size implies board.marks()[y] =~= full_marks(
                *metadata,
            )[y] by {
                assert(forall|x: int|
                    0 <= x < metadata.x_size ==> #[trigger] board.marks()[y][x]);
            }
            assert(board.marks() =~~= full_marks(*metadata));
        }
        Ok(board)
    }
}

/// An in-bounds cell that is still closed.
pub open spec fn closed_at(g: Seq<Seq<Field>>, x: int, y: int) -> bool {
    cell_in_bounds(g, x, y) && g[y][x].field_state == FieldState::Closed
}

/// An in-bounds non-mine cell with no adjacent mines.
pub open spec fn zero_at(g: Seq<Seq<Field>>, x: int, y: int) -> bool {
    cell_in_bounds(g, x, y) && !g[y][x].mine && g[y][x].value == 0
}

/// 8-neighbourhood adjacency of two distinct cells.
pub open spec fn adjacent(ax: int, ay: int, bx: int, by: int) -> bool {
    -1 <= bx - ax <= 1 && -1 <= by - ay <= 1 && !(bx == ax && by == ay)
}

/// A flood-fill path: it starts at (sx, sy), every cell on it is closed,
/// and every cell but the last is a zero cell adjacent to its successor.
pub open spec fn path_ok(g: Seq<Seq<Field>>, p: Seq<(int, int)>, sx: int, sy: int) -> bool {
    &&& p.len() > 0
    &&& p[0] == (sx, sy)
    &&& forall|i: int| 0 <= i < p.len() ==> closed_at(g, (#[trigger] p[i]).0, p[i].1)
    &&& forall|i: int|
        0 <= i < p.len() - 1 ==> zero_at(g, (#[trigger] p[i]).0, p[i].1) && adjacent(
            p[i].0,
            p[i].1,
            p[i + 1].0,
            p[i + 1].1,
        )
}

/// The cells that opening (sx, sy) floods: the closed cells connected to
/// the start through closed zero cells, including the non-zero closed
/// cells bordering that region.
pub open spec fn reachable(g: Seq<Seq<Field>>, sx: int, sy: int, cx: int, cy: int) -> bool {
    exists|p: Seq<(int, int)>| #[trigger] path_ok(g, p, sx, sy) && p.last() == (cx, cy)
}

/// A cell that was closed in g and is open in m.
pub open spec fn newly_opened(g: Seq<Seq<Field>>, m: Seq<Seq<Field>>, x: int, y: int) -> bool {
    closed_at(g, x, y) && cell_in_bounds(m, x, y) && m[y][x].field_state == FieldState::Open
}

/// Every closed neighbour of a newly opened zero cell is newly opened.
pub open spec fn closure_ok(g: Seq<Seq<Field>>, m: Seq<Seq<Field>>) -> bool {
    forall|cx: int, cy: int, nx: int, ny: int|
        #[trigger] adjacent(cx, cy, nx, ny) && newly_opened(g, m, cx, cy) && zero_at(g, cx, cy)
            && closed_at(g, nx, ny) ==> newly_opened(g, m, nx, ny)
}

/// Some entry of the work list is the cell (x, y).
pub open spec fn stack_has(st: Seq<(usize, usize)>, x: int, y: int) -> bool {
    exists|k: int| 0 <= k < st.len() && (#[trigger] st[k]).0 == x && st[k].1 == y
}

/// Saturating addition at the limit of a u32 counter.
pub open spec fn sat_add_u32(a: int, b: int) -> int {
    if a + b > u32::MAX {
        u32::MAX as int
    } else {
        a + b
    }
}

/// A closed start cell reaches itself.
pub proof fn lemma_reach_start(g: Seq<Seq<Field>>, sx: int, sy: int)
    requires
        closed_at(g, sx, sy),
    ensures
        reachable(g, sx, sy, sx, sy),
{
    let p: Seq<(int, int)> = seq![(sx, sy)];
    assert(path_ok(g, p, sx, sy));
    assert(p.last() == (sx, sy));
}

/// An unopenable start cell reaches nothing.
pub proof fn lemma_no_reach(g: Seq<Seq<Field>>, sx: int, sy: int)
    requires
        !closed_at(g, sx, sy),
    ensures
        forall|cx: int, cy: int| !reachable(g, sx, sy, cx, cy),
{
    assert forall|cx: int, cy: int| !reachable(g, sx, sy, cx, cy) by {
        if reachable(g, sx, sy, cx, cy) {
            let p = choose|p: Seq<(int, int)>| #[trigger] path_ok(g, p, sx, sy) && p.last() == (
            cx,
            cy,
            );
            assert(closed_at(g, p[0].0, p[0].1));
        }
    }
}

/// A reached zero cell extends reachability to each of its closed
/// neighbours.
pub proof fn lemma_reach_step(
    g: Seq<Seq<Field>>,
    sx: int,
    sy: int,
    cx: int,
    cy: int,
    nx: int,
    ny: int,
)
    requires
        reachable(g, sx, sy, cx, cy),
        zero_at(g, cx, cy),
        adjacent(cx, cy, nx, ny),
        closed_at(g, nx, ny),
    ensures
        reachable(g, sx, sy, nx, ny),
{
    let p = choose|p: Seq<(int, int)>| #[trigger] path_ok(g, p, sx, sy) && p.last() == (cx, cy);
    let q = p.push((nx, ny));
    assert(forall|i: int| 0 <= i < p.len() ==> q[i] == p[i]);
    assert(q[q.len() - 1] == (nx, ny));
    assert(path_ok(g, q, sx, sy)) by {
        assert(q[0] == p[0]);
        assert(forall|i: int| 0 <= i < q.len() ==> closed_at(g, (#[trigger] q[i]).0, q[i].1));
        assert(p[p.len() - 1] == (cx, cy));
        assert(forall|i: int|
            0 <= i < q.len() - 1 ==> zero_at(g, (#[trigger] q[i]).0, q[i].1) && adjacent(
                q[i].0,
                q[i].1,
                q[i + 1].0,
                q[i + 1].1,
            ));
    }
    assert(q.last() == (nx, ny));
}

/// Under the closure property, every cell on a flood-fill path whose
/// start was opened has itself been opened.
pub proof fn lemma_path_opened(
    g: Seq<Seq<Field>>,
    m: Seq<Seq<Field>>,
    p: Seq<(int, int)>,
    sx: int,
    sy: int,
)
    requires
        path_ok(g, p, sx, sy),
        newly_opened(g, m, sx, sy),
        closure_ok(g, m),
    ensures
        newly_opened(g, m, p.last().0, p.last().1),
    decreases p.len(),
{
    if p.len() > 1 {
        let q = p.drop_last();
        assert(forall|i: int| 0 <= i < q.len() ==> q[i] == p[i]);
        assert(path_ok(g, q, sx, sy));
        lemma_path_opened(g, m, q, sx, sy);
        let c = p[p.len() - 2];
        let n = p[p.len() - 1];
        assert(q.last() == c);
        assert(zero_at(g, c.0, c.1) && adjacent(c.0, c.1, n.0, n.1));
        assert(closed_at(g, n.0, n.1));
        assert(newly_opened(g, m, n.0, n.1));
    }
}

/// Flood fill never opens a mine other than the start cell itself: on a
/// well-valued board, a reached non-start cell borders a zero cell, so
/// it cannot be a mine.
pub proof fn lemma_reachable_not_mine(g: Seq<Seq<Field>>, sx: int, sy: int, cx: int, cy: int)
    requires
        values_ok(g),
        reachable(g, sx, sy, cx, cy),
        !(cx == sx && cy == sy),
    ensures
        !g[cy][cx].mine,
{
    let p = choose|p: Seq<(int, int)>| #[trigger] path_ok(g, p, sx, sy) && p.last() == (cx, cy);
    assert(p.len() > 1) by {
        if p.len() == 1 {
            assert(p.last() == p[0]);
        }
    }
    let c = p[p.len() - 2];
    assert(zero_at(g, c.0, c.1) && adjacent(c.0, c.1, cx, cy));
    assert(cell_in_bounds(g, c.0, c.1));
    assert(g[c.1][c.0].value == adj_mines(g, c.0, c.1));
    assert(mine_at(g, cx, cy) == 0);
    assert(cell_in_bounds(g, cx, cy));
}

impl Board {
    /// Reveals one closed cell: state to Open, dirty mark set, open
    /// counter raised by one (saturating at its machine limit).
    fn open_one(&mut self, cx: usize, cy: usize)
        requires
            old(self).metadata.wf(),
            grid_dims_ok(
                old(self).grid(),
                old(self).metadata.x_size as int,
                old(self).metadata.y_size as int,
            ),
            marks_dims_ok(
                old(self).marks(),
                old(self).metadata.x_size as int,
                old(self).metadata.y_size as int,
            ),
            cx < old(self).metadata.x_size as usize,
            cy < old(self).metadata.y_size as usize,
            old(self).grid()[cy as int][cx as int].field_state == FieldState::Closed,
        ensures
            final(self).metadata == old(self).metadata,
            final(self).mine_count == old(self).mine_count,
            final(self).total_fields == old(self).total_fields,
            final(self).fields@.len() == old(self).fields@.len(),
            final(self).grid() == old(self).grid().update(
                cy as int,
                old(self).grid()[cy as int].update(
                    cx as int,
                    with_state(old(self).grid()[cy as int][cx as int], FieldState::Open),
                ),
            ),
            final(self).marks() == old(self).marks().update(
                cy as int,
                old(self).marks()[cy as int].update(cx as int, true),
            ),
            final(self).open_fields as int == sat_add_u32(old(self).open_fields as int, 1),
            grid_open_count(final(self).grid()) == grid_open_count(old(self).grid()) + 1,
            grid_mine_count(final(self).grid()) == grid_mine_count(old(self).grid()),
    {
        let cell = self.fields[cy][cx];
        proof {
            assert(cell == self.grid()[cy as int][cx as int]);
        }
        self.fields[cy][cx] = Field {
            value: cell.value,
            field_state: FieldState::Open,
            mine: cell.mine,
        };
        let ghost mpre = self.marks();
        proof {
            assert(mpre[cy as int] == self.changed_fields@[cy as int]@);
        }
        self.changed_fields[cy][cx] = true;
        if self.open_fields < u32::MAX {
            self.open_fields = self.open_fields + 1;
        }
        proof {
            assert(self.grid() =~~= old(self).grid().update(
                cy as int,
                old(self).grid()[cy as int].update(
                    cx as int,
                    with_state(old(self).grid()[cy as int][cx as int], FieldState::Open),
                ),
            ));
            assert(self.marks() =~~= mpre.update(
                cy as int,
                mpre[cy as int].update(cx as int, true),
            ));
            lemma_grid_counts_update(
                old(self).grid(),
                cx as int,
                cy as int,
                with_state(old(self).grid()[cy as int][cx as int], FieldState::Open),
            );
        }
    }
}

/// Taking the top of the work list keeps every remaining entry in
/// bounds and reachable-when-closed.
pub proof fn lemma_stack_restore(
    g0: Seq<Seq<Field>>,
    st0: Seq<(usize, usize)>,
    stcur: Seq<(usize, usize)>,
    sx: int,
    sy: int,
    w: int,
    h: int,
)
    requires
        st0.len() > 0,
        st0.len() - 1 <= stcur.len(),
        forall|k: int| 0 <= k < st0.len() - 1 ==> #[trigger] stcur[k] == st0[k],
        forall|k: int|
            0 <= k < st0.len() ==> 0 <= (#[trigger] st0[k]).0 < w && 0 <= st0[k].1 < h && (
            closed_at(g0, st0[k].0 as int, st0[k].1 as int) ==> reachable(
                g0,
                sx,
                sy,
                st0[k].0 as int,
                st0[k].1 as int,
            )),
        forall|k: int|
            st0.len() - 1 <= k < stcur.len() ==> 0 <= (#[trigger] stcur[k]).0 < w && 0
                <= stcur[k].1 < h && (closed_at(g0, stcur[k].0 as int, stcur[k].1 as int)
                ==> reachable(g0, sx, sy, stcur[k].0 as int, stcur[k].1 as int)),
    ensures
        forall|k: int|
            0 <= k < stcur.len() ==> 0 <= (#[trigger] stcur[k]).0 < w && 0 <= stcur[k].1 < h && (
            closed_at(g0, stcur[k].0 as int, stcur[k].1 as int) ==> reachable(
                g0,
                sx,
                sy,
                stcur[k].0 as int,
                stcur[k].1 as int,
            )),
{
}

/// One work-list step keeps the flood-fill frontier property: after a
/// cell is taken from the list and handled, every closed neighbour of a
/// newly opened zero cell is still newly opened or still on the list.
pub proof fn lemma_frontier_restore(
    g0: Seq<Seq<Field>>,
    gpre: Seq<Seq<Field>>,
    gcur: Seq<Seq<Field>>,
    st0: Seq<(usize, usize)>,
    stcur: Seq<(usize, usize)>,
    cx: int,
    cy: int,
    sx: int,
    sy: int,
)
    requires
        st0.len() > 0,
        (st0[st0.len() - 1].0 as int) == cx,
        (st0[st0.len() - 1].1 as int) == cy,
        st0.len() - 1 <= stcur.len(),
        forall|k: int| 0 <= k < st0.len() - 1 ==> #[trigger] stcur[k] == st0[k],
        forall|px: int, py: int, nx: int, ny: int|
            #[trigger] adjacent(px, py, nx, ny) && newly_opened(g0, gpre, px, py) && zero_at(
                g0,
                px,
                py,
            ) && closed_at(g0, nx, ny) ==> (newly_opened(g0, gpre, nx, ny) || stack_has(
                st0,
                nx,
                ny,
            )),
        closed_at(g0, sx, sy) ==> (newly_opened(g0, gpre, sx, sy) || stack_has(st0, sx, sy)),
        gcur.len() == gpre.len(),
        forall|yy: int| 0 <= yy < gpre.len() ==> (#[trigger] gcur[yy]).len() == gpre[yy].len(),
        forall|xx: int, yy: int|
            cell_in_bounds(gpre, xx, yy) && !(xx == cx && yy == cy) ==> #[trigger] gcur[yy][xx]
                == gpre[yy][xx],
        cell_in_bounds(gpre, cx, cy) ==> (gcur[cy][cx] == gpre[cy][cx] || gcur[cy][cx]
            == with_state(gpre[cy][cx], FieldState::Open)),
        closed_at(g0, cx, cy) ==> newly_opened(g0, gcur, cx, cy),
        (newly_opened(g0, gcur, cx, cy) && !newly_opened(g0, gpre, cx, cy) && zero_at(g0, cx, cy))
            ==> forall|nx: int, ny: int|
            #[trigger] adjacent(cx, cy, nx, ny) && closed_at(g0, nx, ny) ==> (newly_opened(
                g0,
                gcur,
                nx,
                ny,
            ) || stack_has(stcur, nx, ny)),
    ensures
        forall|px: int, py: int, nx: int, ny: int|
            #[trigger] adjacent(px, py, nx, ny) && newly_opened(g0, gcur, px, py) && zero_at(
                g0,
                px,
                py,
            ) && closed_at(g0, nx, ny) ==> (newly_opened(g0, gcur, nx, ny) || stack_has(
                stcur,
                nx,
                ny,
            )),
        closed_at(g0, sx, sy) ==> (newly_opened(g0, gcur, sx, sy) || stack_has(stcur, sx, sy)),
{
    assert forall|px: int, py: int, nx: int, ny: int|
        #[trigger] adjacent(px, py, nx, ny) && newly_opened(g0, gcur, px, py) && zero_at(
            g0,
            px,
            py,
        ) && closed_at(g0, nx, ny) implies (newly_opened(g0, gcur, nx, ny) || stack_has(
        stcur,
        nx,
        ny,
    )) by {
        if newly_opened(g0, gpre, px, py) {
            assert(newly_opened(g0, gpre, nx, ny) || stack_has(st0, nx, ny));
            if newly_opened(g0, gpre, nx, ny) {
                assert(newly_opened(g0, gcur, nx, ny));
            } else {
                let k = choose|k: int|
                    0 <= k < st0.len() && (#[trigger] st0[k]).0 == nx && st0[k].1 == ny;
                if k < st0.len() - 1 {
                    assert(stcur[k] == st0[k]);
                    assert(stack_has(stcur, nx, ny));
                } else {
                    assert(nx == cx && ny == cy);
                    assert(newly_opened(g0, gcur, nx, ny));
                }
            }
        } else {
            assert(px == cx && py == cy);
        }
    }
    if closed_at(g0, sx, sy) && !newly_opened(g0, gcur, sx, sy) {
        assert(newly_opened(g0, gpre, sx, sy) || stack_has(st0, sx, sy));
        let k = choose|k: int| 0 <= k < st0.len() && (#[trigger] st0[k]).0 == sx && st0[k].1 == sy;
        if k < st0.len() - 1 {
            assert(stcur[k] == st0[k]);
            assert(stack_has(stcur, sx, sy));
        } else {
            assert(newly_opened(g0, gcur, sx, sy));
        }
    }
}

/// Puts one neighbour of a just-opened zero cell on the work list,
/// recording that a closed neighbour is reachable from the start.
fn push_neighbor(
    stack: &mut Vec<(usize, usize)>,
    nx: usize,
    ny: usize,
    Ghost(g0): Ghost<Seq<Seq<Field>>>,
    Ghost(sx): Ghost<int>,
    Ghost(sy): Ghost<int>,
    Ghost(cx): Ghost<int>,
    Ghost(cy): Ghost<int>,
)
    requires
        reachable(g0, sx, sy, cx, cy),
        zero_at(g0, cx, cy),
        adjacent(cx, cy, nx as int, ny as int),
    ensures
        final(stack)@ == old(stack)@.push((nx, ny)),
        closed_at(g0, nx as int, ny as int) ==> reachable(g0, sx, sy, nx as int, ny as int),
        stack_has(final(stack)@, nx as int, ny as int),
        forall|ax: int, ay: int|
            stack_has(old(stack)@, ax, ay) ==> stack_has(final(stack)@, ax, ay),
{
    proof {
        if closed_at(g0, nx as int, ny as int) {
            lemma_reach_step(g0, sx, sy, cx, cy, nx as int, ny as int);
        }
    }
    stack.push((nx, ny));
    proof {
        assert(stack@[stack@.len() - 1] == (nx, ny));
        assert forall|ax: int, ay: int| stack_has(old(stack)@, ax, ay) implies stack_has(
            stack@,
            ax,
            ay,
        ) by {
            let k = choose|k: int|
                0 <= k < old(stack)@.len() && (#[trigger] old(stack)@[k]).0 == ax && old(
                stack,
                )@[k].1 == ay;
            assert(stack@[k] == old(stack)@[k]);
        }
    }
}

impl Board {
    /// Opens the cell at (x, y). A cell that is not closed is left
    /// untouched (the operation is idempotent). Opening a closed cell
    /// reveals it, marks it dirty and raises the open counter; if it is
    /// a zero cell, the whole connected zero region and its border are
    /// opened with it — exactly the cells `reachable` describes. Mines,
    /// values, metadata and the other counters never change.
    #[verifier::rlimit(100)]
    #[verifier::spinoff_prover]
    pub fn open_field(&mut self, x: usize, y: usize)
        requires
            old(self).wf(),
            x < old(self).metadata.x_size as usize,
            y < old(self).metadata.y_size as usize,
        ensures
            final(self).wf(),
            final(self).metadata == old(self).metadata,
            final(self).mine_count == old(self).mine_count,
            final(self).total_fields == old(self).total_fields,
            forall|cx: int, cy: int|
                #[trigger] cell_in_bounds(old(self).grid(), cx, cy) ==> final(self).grid()[cy][cx]
                    == (if reachable(old(self).grid(), x as int, y as int, cx, cy) {
                    with_state(old(self).grid()[cy][cx], FieldState::Open)
                } else {
                    old(self).grid()[cy][cx]
                }),
            forall|cx: int, cy: int|
                #[trigger] cell_in_bounds(old(self).grid(), cx, cy) ==> final(self).marks()[cy][cx]
                    == (old(self).marks()[cy][cx] || reachable(
                    old(self).grid(),
                    x as int,
                    y as int,
                    cx,
                    cy,
                )),
            final(self).open_fields as int == sat_add_u32(
                old(self).open_fields as int,
                grid_open_count(final(self).grid()) - grid_open_count(old(self).grid()),
            ),
            old(self).open_fields <= final(self).open_fields,
    {
        let ghost g0 = self.grid();
        let ghost w = self.metadata.x_size as int;
        let ghost h = self.metadata.y_size as int;
        let ghost sx = x as int;
        let ghost sy = y as int;
        proof {
            lemma_grid_counts_bound(g0, w, h);
        }
        let mut stack: Vec<(usize, usize)> = Vec::new();
        stack.push((x, y));
        proof {
            if closed_at(g0, sx, sy) {
                lemma_reach_start(g0, sx, sy);
            }
            assert(stack@[0] == (x, y));
            assert(stack_has(stack@, sx, sy));
        }
        while stack.len() > 0
            invariant
                old(self).wf(),
                g0 == old(self).grid(),
                w == old(self).metadata.x_size as int,
                h == old(self).metadata.y_size as int,
                sx == x as int,
                sy == y as int,
                0 <= sx < w,
                0 <= sy < h,
                self.metadata == old(self).metadata,
                self.mine_count == old(self).mine_count,
                self.total_fields == old(self).total_fields,
                self.open_fields as int == sat_add_u32(
                    old(self).open_fields as int,
                    grid_open_count(self.grid()) - grid_open_count(g0),
                ),
                grid_dims_ok(self.grid(), w, h),
                marks_dims_ok(self.marks(), w, h),
                grid_open_count(g0) <= grid_open_count(self.grid()) <= w * h,
                grid_mine_count(self.grid()) == grid_mine_count(g0),
                forall|cx: int, cy: int|
                    #[trigger] cell_in_bounds(g0, cx, cy) ==> cell_in_bounds(self.grid(), cx, cy)
                        && self.grid()[cy][cx].value == g0[cy][cx].value
                        && self.grid()[cy][cx].mine == g0[cy][cx].mine
                        && (self.grid()[cy][cx].field_state == g0[cy][cx].field_state || (
                        g0[cy][cx].field_state == FieldState::Closed
                            && self.grid()[cy][cx].field_state == FieldState::Open)),
                forall|cx: int, cy: int|
                    #[trigger] newly_opened(g0, self.grid(), cx, cy) ==> reachable(
                        g0,
                        sx,
                        sy,
                        cx,
                        cy,
                    ),
                forall|k: int|
                    0 <= k < stack@.len() ==> 0 <= (#[trigger] stack@[k]).0 < w && 0 <= stack@[k].1
                        < h && (closed_at(g0, stack@[k].0 as int, stack@[k].1 as int)
                        ==> reachable(g0, sx, sy, stack@[k].0 as int, stack@[k].1 as int)),
                forall|cx: int, cy: int, nx: int, ny: int|
                    #[trigger] adjacent(cx, cy, nx, ny) && newly_opened(g0, self.grid(), cx, cy)
                        && zero_at(g0, cx, cy) && closed_at(g0, nx, ny) ==> (newly_opened(
                        g0,
                        self.grid(),
                        nx,
                        ny,
                    ) || stack_has(stack@, nx, ny)),
                closed_at(g0, sx, sy) ==> (newly_opened(g0, self.grid(), sx, sy) || stack_has(
                    stack@,
                    sx,
                    sy,
                )),
                forall|cx: int, cy: int|
                    #[trigger] cell_in_bounds(g0, cx, cy) ==> self.marks()[cy][cx] == (old(
                        self,
                    ).marks()[cy][cx] || newly_opened(g0, self.grid(), cx, cy)),
            decreases w * h - grid_open_count(self.grid()), stack@.len(),
        {
            let ghost st0 = stack@;
            let ghost gpre0 = self.grid();
            let c = stack.pop().unwrap();
            let (cx, cy) = c;
            proof {
                assert(c == st0[st0.len() - 1]);
                assert(0 <= c.0 < w && 0 <= c.1 < h);
                assert(cell_in_bounds(g0, cx as int, cy as int));
                assert(self.grid()[cy as int] == self.fields@[cy as int]@);
            }
            let cell = self.fields[cy][cx];
            proof {
                assert(cell == self.grid()[cy as int][cx as int]);
            }
            if cell.field_state == FieldState::Closed {
                proof {
                    assert(closed_at(g0, cx as int, cy as int));
                    assert(reachable(g0, sx, sy, cx as int, cy as int));
                }
                self.open_one(cx, cy);
                proof {
                    lemma_grid_counts_bound(self.grid(), w, h);
                }
                if !cell.mine && cell.value == 0 {
                    proof {
                        assert(zero_at(g0, cx as int, cy as int));
                    }
                    let ghost gh_g0 = g0;
                    let ghost gh_cx = cx as int;
                    let ghost gh_cy = cy as int;
                    if cy > 0 && cx > 0 {
                        push_neighbor(&mut stack, cx - 1, cy - 1, Ghost(gh_g0), Ghost(sx), Ghost(sy), Ghost(gh_cx), Ghost(gh_cy));
                    }
                    if cy > 0 {
                        push_neighbor(&mut stack, cx, cy - 1, Ghost(gh_g0), Ghost(sx), Ghost(sy), Ghost(gh_cx), Ghost(gh_cy));
                    }
                    if cy > 0 && cx + 1 < self.metadata.x_size as usize {
                        push_neighbor(&mut stack, cx + 1, cy - 1, Ghost(gh_g0), Ghost(sx), Ghost(sy), Ghost(gh_cx), Ghost(gh_cy));
                    }
                    if cx > 0 {
                        push_neighbor(&mut stack, cx - 1, cy, Ghost(gh_g0), Ghost(sx), Ghost(sy), Ghost(gh_cx), Ghost(gh_cy));
                    }
                    if cx + 1 < self.metadata.x_size as usize {
                        push_neighbor(&mut stack, cx + 1, cy, Ghost(gh_g0), Ghost(sx), Ghost(sy), Ghost(gh_cx), Ghost(gh_cy));
                    }
                    if cy + 1 < self.metadata.y_size as usize && cx > 0 {
                        push_neighbor(&mut stack, cx - 1, cy + 1, Ghost(gh_g0), Ghost(sx), Ghost(sy), Ghost(gh_cx), Ghost(gh_cy));
                    }
                    if cy + 1 < self.metadata.y_size as usize {
                        push_neighbor(&mut stack, cx, cy + 1, Ghost(gh_g0), Ghost(sx), Ghost(sy), Ghost(gh_cx), Ghost(gh_cy));
                    }
                    if cy + 1 < self.metadata.y_size as usize && cx + 1
                        < self.metadata.x_size as usize {
                        push_neighbor(&mut stack, cx + 1, cy + 1, Ghost(gh_g0), Ghost(sx), Ghost(sy), Ghost(gh_cx), Ghost(gh_cy));
                    }
                    proof {
                        assert forall|nx: int, ny: int|
                            adjacent(cx as int, cy as int, nx, ny) && cell_in_bounds(
                                g0,
                                nx,
                                ny,
                            ) implies stack_has(stack@, nx, ny) by {
                            assert(g0[ny].len() == w);
                        }
                    }
                }
            }
            proof {
                let gcur = self.grid();
                lemma_stack_restore(g0, st0, stack@, sx, sy, w, h);
                assert(closed_at(g0, cx as int, cy as int) ==> newly_opened(
                    g0,
                    gcur,
                    cx as int,
                    cy as int,
                ));
                lemma_frontier_restore(
                    g0,
                    gpre0,
                    gcur,
                    st0,
                    stack@,
                    cx as int,
                    cy as int,
                    sx,
                    sy,
                );
            }
        }
        proof {
            let m = self.grid();
            assert(closure_ok(g0, m));
            assert forall|cx: int, cy: int| #[trigger] cell_in_bounds(g0, cx, cy) implies (
            newly_opened(g0, m, cx, cy) <==> reachable(g0, sx, sy, cx, cy)) by {
                if reachable(g0, sx, sy, cx, cy) {
                    if !closed_at(g0, sx, sy) {
                        lemma_no_reach(g0, sx, sy);
                    }
                    assert(newly_opened(g0, m, sx, sy));
                    let p = choose|p: Seq<(int, int)>|
                        #[trigger] path_ok(g0, p, sx, sy) && p.last() == (cx, cy);
                    lemma_path_opened(g0, m, p, sx, sy);
                }
            }
            assert(values_ok(m)) by {
                assert(forall|xx: int, yy: int|
                    #[trigger] cell_in_bounds(m, xx, yy) ==> cell_in_bounds(g0, xx, yy));
                assert(forall|xx: int, yy: int|
                    mine_at(m, xx, yy) == mine_at(g0, xx, yy));
                assert(forall|xx: int, yy: int|
                    #[trigger] cell_in_bounds(m, xx, yy) ==> adj_mines(m, xx, yy) == adj_mines(
                        g0,
                        xx,
                        yy,
                    ));
            }
        }
    }
}

/// The grid after opening (sx, sy): exactly the reachable cells turn
/// open, and nothing else changes.
pub open spec fn open_transform(g: Seq<Seq<Field>>, sx: int, sy: int) -> Seq<Seq<Field>> {
    Seq::new(
        g.len(),
        |y: int|
            Seq::new(
                g[y].len(),
                |x: int|
                    if reachable(g, sx, sy, x, y) {
                        with_state(g[y][x], FieldState::Open)
                    } else {
                        g[y][x]
                    },
            ),
    )
}

/// A grid that satisfies `open_field`'s cell clause is the
/// `open_transform` of the old grid.
pub proof fn lemma_grid_is_transform(g0: Seq<Seq<Field>>, g1: Seq<Seq<Field>>, sx: int, sy: int)
    requires
        g1.len() == g0.len(),
        forall|y: int| 0 <= y < g0.len() ==> (#[trigger] g1[y]).len() == g0[y].len(),
        forall|cx: int, cy: int|
            #[trigger] cell_in_bounds(g0, cx, cy) ==> g1[cy][cx] == (if reachable(g0, sx, sy, cx, cy) {
                with_state(g0[cy][cx], FieldState::Open)
            } else {
                g0[cy][cx]
            }),
    ensures
        g1 =~~= open_transform(g0, sx, sy),
{
    assert forall|y: int| 0 <= y < g0.len() implies g1[y] =~= open_transform(g0, sx, sy)[y] by {
        assert forall|x: int| 0 <= x < g0[y].len() implies g1[y][x] == open_transform(
            g0,
            sx,
            sy,
        )[y][x] by {
            assert(cell_in_bounds(g0, x, y));
        }
    }
}

/// Opening the same cell twice changes nothing the second time: after
/// one `open_transform` the start cell is no longer closed, so nothing
/// is reachable any more.
pub proof fn lemma_open_idempotent(g: Seq<Seq<Field>>, sx: int, sy: int)
    ensures
        open_transform(open_transform(g, sx, sy), sx, sy) =~~= open_transform(g, sx, sy),
{
    let g1 = open_transform(g, sx, sy);
    assert(!closed_at(g1, sx, sy)) by {
        if cell_in_bounds(g, sx, sy) {
            if closed_at(g, sx, sy) {
                lemma_reach_start(g, sx, sy);
                assert(g1[sy][sx] == with_state(g[sy][sx], FieldState::Open));
            } else {
                if reachable(g, sx, sy, sx, sy) {
                    let p = choose|p: Seq<(int, int)>|
                        #[trigger] path_ok(g, p, sx, sy) && p.last() == (sx, sy);
                    assert(closed_at(g, p[0].0, p[0].1));
                }
                assert(g1[sy][sx] == g[sy][sx]);
            }
        }
    }
    lemma_no_reach(g1, sx, sy);
    assert forall|y: int| 0 <= y < g1.len() implies open_transform(g1, sx, sy)[y] =~= g1[y] by {
        assert forall|x: int| 0 <= x < g1[y].len() implies open_transform(g1, sx, sy)[y][x]
            == g1[y][x] by {
            assert(!reachable(g1, sx, sy, x, y));
        }
    }
}

/// The progress metric never decreases as the open counter grows, and
/// it is exactly 100 once every mine-free cell is accounted for.
pub proof fn lemma_progress_monotone(open1: int, open2: int, total: int, mines: int)
    requires
        0 <= open1 <= open2,
        0 <= mines <= total,
    ensures
        done_percentage(open1, total, mines) <= done_percentage(open2, total, mines),
{
    if total != mines {
        vstd::arithmetic::div_mod::lemma_div_is_ordered(100 * open1, 100 * open2, total - mines);
    }
}

pub proof fn lemma_progress_complete(total: int, mines: int)
    requires
        0 <= mines <= total,
    ensures
        done_percentage(total - mines, total, mines) == 100,
{
    if total != mines {
        vstd::arithmetic::div_mod::lemma_div_multiples_vanish(100, total - mines);
        assert(100 * (total - mines) == (total - mines) * 100);
    }
}

/// The progress formula: the floor of 100 * open / (total - mines),
/// capped at the counter's machine limit, and 100 for the all-mine
/// board, whose denominator would be zero.
pub open spec fn done_percentage(open_fields: int, total_fields: int, mine_count: int) -> int {
    if total_fields == mine_count {
        100
    } else if 100 * open_fields / (total_fields - mine_count) > u32::MAX {
        u32::MAX as int
    } else {
        100 * open_fields / (total_fields - mine_count)
    }
}

impl Board {
    /// Percentage of the mine-free cells that the open counter accounts
    /// for. On an all-mine board the formula's denominator is zero; that
    /// case is defined to be 100.
    pub fn calculate_done_percentage(&self) -> (r: u32)
        requires
            self.wf(),
        ensures
            r == done_percentage(
                self.open_fields as int,
                self.total_fields as int,
                self.mine_count as int,
            ),
    {
        if self.total_fields == self.mine_count {
            return 100;
        }
        let num: u64 = 100u64 * (self.open_fields as u64);
        let den: u64 = (self.total_fields - self.mine_count) as u64;
        let q = num / den;
        if q > u32::MAX as u64 {
            u32::MAX
        } else {
            q as u32
        }
    }
}

} // verus!
