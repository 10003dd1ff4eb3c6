//! The maze model: a grid of symbol characters with a text form, a single
//! player spawn, enemy spawns and blocked cells.

use vstd::prelude::*;
use crate::array2d::Array2D;

verus! {

/// A cell position in the maze: column, then row.
pub type Coord = (usize, usize);

/// What a maze cell holds, as the character of the text form.
pub type Symbol = char;

/// The characters the maze text form uses for each kind of cell.
pub trait SymbolConsts {
    const PLAYER_SPAWN: char = 'P';
    const ENEMY_SPAWN: char = 'E';
    /// Nothing on the tile.
    const FREE: char = '.';
    const BLOCKED: char = '#';
    const END_OF_LINE: char = '\n';
}

impl SymbolConsts for Symbol {

}

/// A maze: a grid of symbols.
#[derive(Debug)]
pub struct Maze {
    pub grid: Array2D<Symbol>,
}

impl Maze {
    /// A maze with every cell free.
    pub fn new_empty(width: usize, height: usize) -> (m: Self)
        requires
            width * height <= usize::MAX,
        ensures
            m.grid.spec_width() == width,
            m.grid.spec_height() == height,
            forall|x: int, y: int| m.grid.in_bounds(x, y) ==> m.grid.at(x, y) == '.',
    {
        Self { grid: Array2D::new(width, height, '.') }
    }

    /// The coordinate of the player spawn: the first cell holding the
    /// player-spawn symbol, scanning each row left to right, top row
    /// first; `None` when no cell holds it.
    pub fn player_spawn_coord(&self) -> (r: Option<Coord>)
        ensures
            match r {
                Some(c) => self.grid.in_bounds(c.0 as int, c.1 as int)
                    && self.grid.at(c.0 as int, c.1 as int) == 'P'
                    && (forall|x: int, y: int|
                        self.grid.in_bounds(x, y) && (y < c.1 || (y == c.1 && x < c.0))
                            ==> self.grid.at(x, y) != 'P'),
                None => forall|x: int, y: int|
                    self.grid.in_bounds(x, y) ==> self.grid.at(x, y) != 'P',
            },
    {
        let width = self.grid.width();
        let height = self.grid.height();
        let mut y: usize = 0;
        while y < height
            invariant
                width == self.grid.spec_width(),
                height == self.grid.spec_height(),
                y <= height,
                forall|i: int, j: int|
                    self.grid.in_bounds(i, j) && j < y ==> self.grid.at(i, j) != 'P',
            decreases height - y,
        {
            let mut x: usize = 0;
            while x < width
                invariant
                    width == self.grid.spec_width(),
                    height == self.grid.spec_height(),
                    x <= width,
                    y < height,
                    forall|i: int, j: int|
                        self.grid.in_bounds(i, j) && j < y ==> self.grid.at(i, j) != 'P',
                    forall|i: int| 0 <= i < x ==> self.grid.at(i, y as int) != 'P',
                decreases width - x,
            {
                if *self.grid.get((x, y)) == 'P' {
                    return Some((x, y));
                }
                x = x + 1;
            }
            y = y + 1;
        }
        None
    }

    /// All coordinates whose cell is blocked, scanning each row left to
    /// right, top row first.
    pub fn blocked_coords(&self) -> (r: Vec<Coord>)
        ensures
            r@ == blocked_coords_seq(*self),
    {
        let width = self.grid.width();
        let height = self.grid.height();
        let ghost coords = coords_row_major(*self);
        let ghost pred = |c: Coord| self.grid.at(c.0 as int, c.1 as int) == '#';
        let mut r: Vec<Coord> = Vec::new();
        proof {
            use_type_invariant(&self.grid);
            assert(coords.take(0) =~= Seq::<Coord>::empty());
            assert(r@ =~= coords.take(0).filter(pred));
        }
        let mut y: usize = 0;
        while y < height
            invariant
                width == self.grid.spec_width(),
                height == self.grid.spec_height(),
                width * height <= usize::MAX,
                y <= height,
                coords == coords_row_major(*self),
                pred == (|c: Coord| self.grid.at(c.0 as int, c.1 as int) == '#'),
                r@ == coords.take((y * width) as int).filter(pred),
            decreases height - y,
        {
            let mut x: usize = 0;
            proof {
                lemma_mul_bound(y as int, width as int, height as int);
            }
            while x < width
                invariant
                    width == self.grid.spec_width(),
                    height == self.grid.spec_height(),
                    width * height <= usize::MAX,
                    x <= width,
                    y < height,
                    y * width + x <= width * height,
                    coords == coords_row_major(*self),
                    pred == (|c: Coord| self.grid.at(c.0 as int, c.1 as int) == '#'),
                    r@ == coords.take((y * width + x) as int).filter(pred),
                decreases width - x,
            {
                let ghost k = (y * width + x) as int;
                proof {
                    lemma_coords_row_major_at(*self, x as int, y as int);
                    assert(coords.take(k + 1) =~= coords.take(k).push((x, y)));
                    Seq::filter_distributes_over_add(
                        coords.take(k),
                        seq![(x, y)],
                        pred,
                    );
                    assert(coords.take(k) + seq![(x, y)] =~= coords.take(k + 1));
                    lemma_filter_singleton_coord((x, y), pred);
                }
                if *self.grid.get((x, y)) == '#' {
                    r.push((x, y));
                    proof {
                        assert(r@ =~= coords.take(k).filter(pred) + seq![(x, y)].filter(pred));
                    }
                } else {
                    proof {
                        assert(r@ =~= coords.take(k).filter(pred) + seq![(x, y)].filter(pred));
                    }
                }
                x = x + 1;
                proof {
                    lemma_row_end(x as int, y as int, width as int, height as int);
                }
            }
            proof {
                assert((y + 1) * width == y * width + width) by (nonlinear_arith);
            }
            y = y + 1;
        }
        proof {
            assert(coords.take((height * width) as int) =~= coords);
            assert(height * width == width * height) by (nonlinear_arith);
        }
        r
    }

    /// The width of the maze grid, in cells.
    pub fn width(&self) -> (w: usize)
        ensures
            w == self.grid.spec_width(),
    {
        self.grid.width()
    }

    /// The height of the maze grid, in cells.
    pub fn height(&self) -> (h: usize)
        ensures
            h == self.grid.spec_height(),
    {
        self.grid.height()
    }

    /// The symbol at the given coordinate.
    pub fn get(&self, coord: Coord) -> (r: &Symbol)
        requires
            self.grid.in_bounds(coord.0 as int, coord.1 as int),
        ensures
            *r == self.grid.at(coord.0 as int, coord.1 as int),
    {
        self.grid.get(coord)
    }

    /// Puts a symbol at the given coordinate.
    pub fn set(&mut self, coord: Coord, symbol: Symbol)
        requires
            old(self).grid.in_bounds(coord.0 as int, coord.1 as int),
        ensures
            final(self).grid.spec_width() == old(self).grid.spec_width(),
            final(self).grid.spec_height() == old(self).grid.spec_height(),
            final(self).grid.at(coord.0 as int, coord.1 as int) == symbol,
            forall|x: int, y: int|
                old(self).grid.in_bounds(x, y) && (x != coord.0 || y != coord.1)
                    ==> final(self).grid.at(x, y) == old(self).grid.at(x, y),
    {
        self.grid.set(coord, symbol);
    }
}

impl Maze {
    /// A one-string description of the maze: its dimensions, then its
    /// text form.
    pub fn display_string(&self) -> (r: String)
        ensures
            r@ == "Maze: dimensions("@ + crate::text::dec_digits(
                self.grid.spec_width() as nat,
            ) + ", "@ + crate::text::dec_digits(self.grid.spec_height() as nat)
                + "),\nmaze: \n"@ + self.grid.grid_chars(),
    {
        let mut out = String::new();
        out.append("Maze: dimensions(");
        crate::text::append_usize_decimal(&mut out, self.grid.width());
        out.append(", ");
        crate::text::append_usize_decimal(&mut out, self.grid.height());
        out.append("),\nmaze: \n");
        let grid_text = self.grid.to_string();
        out.append(grid_text.as_str());
        out
    }
}

impl PartialEq for Maze {
    /// Two mazes are equal when their grids are.
    fn eq(&self, other: &Self) -> (r: bool) {
        self.grid == other.grid
    }
}

impl Eq for Maze {

}

impl vstd::std_specs::cmp::PartialEqSpecImpl for Maze {
    open spec fn obeys_eq_spec() -> bool {
        true
    }

    open spec fn eq_spec(&self, other: &Self) -> bool {
        self.grid.spec_width() == other.grid.spec_width()
            && self.grid.spec_height() == other.grid.spec_height()
            && self.grid@ == other.grid@
    }
}

/// The symbol a mouse click places: the player spawn with shift held,
/// an enemy spawn with ctrl held, and a wall otherwise.
pub fn symbol_for_click(shift_held: bool, ctrl_held: bool) -> (s: Symbol)
    ensures
        s == if shift_held {
            'P'
        } else if ctrl_held {
            'E'
        } else {
            '#'
        },
{
    if shift_held {
        'P'
    } else if ctrl_held {
        'E'
    } else {
        '#'
    }
}

/// Every coordinate of the maze, in the scan order of the grid: row by
/// row, left to right.
pub open spec fn coords_row_major(m: Maze) -> Seq<Coord> {
    Seq::new(
        (m.grid.spec_width() * m.grid.spec_height()) as nat,
        |k: int|
            (
                (k % m.grid.spec_width() as int) as usize,
                (k / m.grid.spec_width() as int) as usize,
            ),
    )
}

/// The coordinates of the blocked cells, in scan order.
pub open spec fn blocked_coords_seq(m: Maze) -> Seq<Coord> {
    coords_row_major(m).filter(|c: Coord| m.grid.at(c.0 as int, c.1 as int) == '#')
}

/// The scan-order coordinate list holds `(x, y)` at index `y * width + x`.
proof fn lemma_coords_row_major_at(m: Maze, x: int, y: int)
    requires
        m.grid.in_bounds(x, y),
    ensures
        0 <= y * m.grid.spec_width() + x < coords_row_major(m).len(),
        coords_row_major(m)[y * m.grid.spec_width() + x] == ((x as usize, y as usize)),
{
    let w = m.grid.spec_width() as int;
    let h = m.grid.spec_height() as int;
    assert(0 <= y * w + x < w * h) by (nonlinear_arith)
        requires
            0 <= x < w,
            0 <= y < h,
    ;
    vstd::arithmetic::div_mod::lemma_fundamental_div_mod_converse(y * w + x, w, y, x);
}

/// Filtering a one-coordinate sequence.
proof fn lemma_filter_singleton_coord(c: Coord, pred: spec_fn(Coord) -> bool)
    ensures
        pred(c) ==> seq![c].filter(pred) == seq![c],
        !pred(c) ==> seq![c].filter(pred) == Seq::<Coord>::empty(),
{
    reveal(Seq::filter);
    assert(seq![c].drop_last() =~= Seq::<Coord>::empty());
    assert(Seq::<Coord>::empty().filter(pred) == Seq::<Coord>::empty());
    assert(seq![c].last() == c);
    if pred(c) {
        assert(seq![c].filter(pred) =~= seq![c]);
    }
}

/// A full row's worth of cells stays within the whole grid.
proof fn lemma_mul_bound(y: int, w: int, h: int)
    requires
        0 <= y < h,
        0 <= w,
    ensures
        y * w + w <= w * h,
        y * w >= 0,
    decreases h,
{
    assert(y * w + w <= w * h && y * w >= 0) by (nonlinear_arith)
        requires
            0 <= y < h,
            0 <= w,
    ;
}

/// After finishing column `x` of row `y`, the scan stays within the
/// grid.
proof fn lemma_row_end(x: int, y: int, w: int, h: int)
    requires
        0 <= y < h,
        0 < x <= w,
    ensures
        y * w + x <= w * h,
        x == w ==> y * w + x == (y + 1) * w,
{
    assert(y * w + x <= w * h) by (nonlinear_arith)
        requires
            0 <= y < h,
            0 < x <= w,
    ;
    assert((y + 1) * w == y * w + w) by (nonlinear_arith);
}

} // verus!
