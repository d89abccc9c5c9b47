//! Drunken-bishop fingerprint art.
//!
//! Decodes a byte sequence into diagonal steps, walks a bishop across a
//! bounded grid with per-axis clamping at the edges, tallies how often each
//! cell is visited, and renders the tally as a grid of palette symbols with
//! the start and end cells marked.

pub mod step;

use vstd::prelude::*;

use crate::step::{decoded_steps, steps_from_bytes, Step};
use itertools::Itertools;
use std::collections::HashMap;

verus! {

/// Columns of the customary board.
pub const STANDARD_COLUMNS: usize = 17;

/// Rows of the customary board.
pub const STANDARD_ROWS: usize = 9;

/// Steps the bishop customarily takes.
pub const STANDARD_STEPS: usize = 64;

/// The default palette, ordered from sparse to dense.
pub open spec fn default_palette() -> Seq<char> {
    seq![' ', '.', 'o', '+', '=', '*', 'B', '0', 'X', '@', '%', '&', '#', '/', '^']
}

/// The default palette as a vector of symbols.
pub fn default_symbols() -> (r: Vec<char>)
    ensures
        r@ == default_palette(),
{
    let v = vec![' ', '.', 'o', '+', '=', '*', 'B', '0', 'X', '@', '%', '&', '#', '/', '^'];
    proof {
        assert(v@ =~= default_palette());
    }
    v
}

/// Convert (x, y) coordinates to a position in a grid.
pub fn coordinates_to_position(columns: usize, x: usize, y: usize) -> (r: usize)
    requires
        y * columns + x <= usize::MAX,
    ensures
        r == y * columns + x,
{
    y * columns + x
}

/// Convert a grid position in to (x, y) coordinates.
pub fn position_to_coordinates(columns: usize, i: usize) -> (r: (usize, usize))
    requires
        columns > 0,
    ensures
        r.0 == i as int % columns as int,
        r.1 == i as int / columns as int,
{
    (i % columns, i / columns)
}

/// One axis of a clamped move: a step toward zero or away from it,
/// saturating at the machine bounds, then held below `bound`.
pub open spec fn clamp_axis(bound: usize, v: usize, toward_zero: bool) -> usize
    recommends
        bound >= 1,
{
    let moved = if toward_zero {
        if v == 0 {
            0usize
        } else {
            (v - 1) as usize
        }
    } else {
        if v == usize::MAX {
            usize::MAX
        } else {
            (v + 1) as usize
        }
    };
    if moved >= bound {
        (bound - 1) as usize
    } else {
        moved
    }
}

/// The column after one clamped step.
pub open spec fn step_x(columns: usize, x: usize, s: Step) -> usize {
    clamp_axis(columns, x, s.goes_west())
}

/// The row after one clamped step.
pub open spec fn step_y(rows: usize, y: usize, s: Step) -> usize {
    clamp_axis(rows, y, s.goes_north())
}

/// The coordinates reached after applying every step in order, with
/// per-axis clamping, starting from column `x` and row `y`.
pub open spec fn end_position(
    columns: usize,
    rows: usize,
    x: usize,
    y: usize,
    steps: Seq<Step>,
) -> (usize, usize)
    decreases steps.len(),
{
    if steps.len() == 0 {
        (x, y)
    } else {
        end_position(
            columns,
            rows,
            step_x(columns, x, steps[0]),
            step_y(rows, y, steps[0]),
            steps.drop_first(),
        )
    }
}

/// The grid index visited after each step of a clamped walk from column `x`
/// and row `y`: one index per step, the position after that step.
pub open spec fn visited_from(
    columns: usize,
    rows: usize,
    x: usize,
    y: usize,
    steps: Seq<Step>,
) -> Seq<usize>
    decreases steps.len(),
{
    if steps.len() == 0 {
        Seq::empty()
    } else {
        let nx = step_x(columns, x, steps[0]);
        let ny = step_y(rows, y, steps[0]);
        seq![((ny * columns + nx) as usize)] + visited_from(
            columns,
            rows,
            nx,
            ny,
            steps.drop_first(),
        )
    }
}

/// Extending a walk by one step appends the index that the step reaches
/// from the walk's end position.
proof fn lemma_visited_push(
    columns: usize,
    rows: usize,
    x: usize,
    y: usize,
    steps: Seq<Step>,
    s: Step,
)
    ensures
        ({
            let px = end_position(columns, rows, x, y, steps).0;
            let py = end_position(columns, rows, x, y, steps).1;
            &&& end_position(columns, rows, x, y, steps.push(s)) == (
            step_x(columns, px, s),
            step_y(rows, py, s),
            )
            &&& visited_from(columns, rows, x, y, steps.push(s)) == visited_from(
                columns,
                rows,
                x,
                y,
                steps,
            ).push(((step_y(rows, py, s) * columns + step_x(columns, px, s)) as usize))
        }),
    decreases steps.len(),
{
    if steps.len() == 0 {
        let nx = step_x(columns, x, s);
        let ny = step_y(rows, y, s);
        assert(steps.push(s)[0] == s);
        assert(steps.push(s).drop_first() =~= Seq::<Step>::empty());
        assert(visited_from(columns, rows, x, y, steps.push(s)) == seq![
            ((ny * columns + nx) as usize),
        ] + visited_from(columns, rows, nx, ny, steps.push(s).drop_first()));
        assert(visited_from(columns, rows, nx, ny, steps.push(s).drop_first())
            == Seq::<usize>::empty());
        assert(end_position(columns, rows, x, y, steps.push(s)) == end_position(
            columns,
            rows,
            nx,
            ny,
            steps.push(s).drop_first(),
        ));
        assert(visited_from(columns, rows, x, y, steps.push(s)) =~= visited_from(
            columns,
            rows,
            x,
            y,
            steps,
        ).push(((ny * columns + nx) as usize)));
    } else {
        assert(steps.push(s)[0] == steps[0]);
        assert(steps.push(s).drop_first() =~= steps.drop_first().push(s));
        let nx = step_x(columns, x, steps[0]);
        let ny = step_y(rows, y, steps[0]);
        assert(visited_from(columns, rows, x, y, steps.push(s)) == seq![
            ((ny * columns + nx) as usize),
        ] + visited_from(columns, rows, nx, ny, steps.drop_first().push(s)));
        assert(visited_from(columns, rows, x, y, steps) == seq![((ny * columns + nx) as usize)]
            + visited_from(columns, rows, nx, ny, steps.drop_first()));
        assert(end_position(columns, rows, x, y, steps.push(s)) == end_position(
            columns,
            rows,
            nx,
            ny,
            steps.drop_first().push(s),
        ));
        assert(end_position(columns, rows, x, y, steps) == end_position(
            columns,
            rows,
            nx,
            ny,
            steps.drop_first(),
        ));
        lemma_visited_push(columns, rows, nx, ny, steps.drop_first(), s);
        let px = end_position(columns, rows, x, y, steps).0;
        let py = end_position(columns, rows, x, y, steps).1;
        assert(visited_from(columns, rows, x, y, steps.push(s)) =~= visited_from(
            columns,
            rows,
            x,
            y,
            steps,
        ).push(((step_y(rows, py, s) * columns + step_x(columns, px, s)) as usize)));
    }
}

/// A walk visits exactly one index per step taken.
pub proof fn lemma_visited_len(columns: usize, rows: usize, x: usize, y: usize, steps: Seq<Step>)
    ensures
        visited_from(columns, rows, x, y, steps).len() == steps.len(),
    decreases steps.len(),
{
    if steps.len() > 0 {
        lemma_visited_len(
            columns,
            rows,
            step_x(columns, x, steps[0]),
            step_y(rows, y, steps[0]),
            steps.drop_first(),
        );
    }
}

/// A clamped walk never leaves the grid: every visited index lies below
/// `rows * columns`, whatever the steps and wherever it begins.
pub proof fn lemma_visited_in_bounds(
    columns: usize,
    rows: usize,
    x: usize,
    y: usize,
    steps: Seq<Step>,
)
    requires
        columns >= 1,
        rows >= 1,
        rows * columns <= usize::MAX,
    ensures
        forall|k: int|
            0 <= k < visited_from(columns, rows, x, y, steps).len() ==> #[trigger] visited_from(
                columns,
                rows,
                x,
                y,
                steps,
            )[k] < rows * columns,
        steps.len() > 0 ==> end_position(columns, rows, x, y, steps).0 < columns && end_position(
            columns,
            rows,
            x,
            y,
            steps,
        ).1 < rows,
    decreases steps.len(),
{
    if steps.len() > 0 {
        let nx = step_x(columns, x, steps[0]);
        let ny = step_y(rows, y, steps[0]);
        assert(nx < columns && ny < rows);
        assert(ny * columns + nx < rows * columns) by (nonlinear_arith)
            requires
                nx < columns,
                ny < rows,
                columns >= 1,
                rows >= 1,
        ;
        lemma_visited_in_bounds(columns, rows, nx, ny, steps.drop_first());
        assert(end_position(columns, rows, x, y, steps) == end_position(
            columns,
            rows,
            nx,
            ny,
            steps.drop_first(),
        ));
        assert(visited_from(columns, rows, x, y, steps) == seq![((ny * columns + nx) as usize)]
            + visited_from(columns, rows, nx, ny, steps.drop_first()));
        assert forall|k: int|
            0 <= k < visited_from(columns, rows, x, y, steps).len() implies #[trigger] visited_from(
            columns,
            rows,
            x,
            y,
            steps,
        )[k] < rows * columns by {
            if k > 0 {
                assert(visited_from(columns, rows, x, y, steps)[k] == visited_from(
                    columns,
                    rows,
                    nx,
                    ny,
                    steps.drop_first(),
                )[k - 1]);
            }
        }
    }
}

/// How many times a value occurs in a sequence.
pub open spec fn count_of(s: Seq<usize>, v: usize) -> nat
    decreases s.len(),
{
    if s.len() == 0 {
        0
    } else {
        (if s[0] == v {
            1nat
        } else {
            0nat
        }) + count_of(s.drop_first(), v)
    }
}

/// A value occurs zero times exactly when the sequence does not contain it,
/// and never more often than the sequence is long.
pub proof fn lemma_count_of(s: Seq<usize>, v: usize)
    ensures
        count_of(s, v) == 0 <==> !s.contains(v),
        count_of(s, v) <= s.len(),
    decreases s.len(),
{
    if s.len() == 0 {
    } else {
        lemma_count_of(s.drop_first(), v);
        if s[0] == v {
            assert(s.contains(v));
        } else {
            assert forall|i: int| 0 <= i < s.len() && s[i] == v implies s.drop_first().contains(
                v,
            ) by {
                assert(s.drop_first()[i - 1] == v);
            }
        }
    }
}

/// The symbol that a visit tally selects from a palette: the tally's own
/// symbol while it is within the palette, and past its end either wrapping
/// around (cycling) or the last, densest symbol (saturating).
pub open spec fn symbol_for(symbols: Seq<char>, n: nat, cycle: bool) -> char
    recommends
        symbols.len() > 0,
{
    let l = symbols.len();
    if n < l {
        symbols[n as int]
    } else if cycle {
        symbols[(n % l) as int]
    } else {
        symbols[l - 1]
    }
}

/// With cycling the palette index is always the tally modulo the palette
/// length; without it, the smaller of the tally and the last index.
pub proof fn lemma_symbol_law(symbols: Seq<char>, n: nat, cycle: bool)
    requires
        symbols.len() > 0,
    ensures
        cycle ==> symbol_for(symbols, n, cycle) == symbols[(n % symbols.len()) as int],
        !cycle ==> symbol_for(symbols, n, cycle) == symbols[vstd::math::min(
            n as int,
            symbols.len() - 1,
        )],
{
    if n < symbols.len() {
        vstd::arithmetic::div_mod::lemma_small_mod(n, symbols.len());
    }
}

/// A drunken-bishop board: the data that drives the walk, the grid shape,
/// the step budget, the palette, the starting cell and the cycling policy.
pub struct DrunkenBishop {
    /// Data to digest into steps for the bishop
    pub data: Vec<u8>,
    /// Rows on the board
    pub rows: usize,
    /// Columns on the board
    pub columns: usize,
    /// Steps for the bishop to take, or 0 for unlimited
    pub steps: usize,
    /// Symbols that render visit tallies, from sparse to dense
    pub symbols: Vec<char>,
    /// Starting location in the grid, or the center cell if absent
    pub home: Option<usize>,
    /// Whether to recycle symbols or only go as far as the last
    pub cycle: bool,
}

impl DrunkenBishop {
    /// A well-formed board: a non-empty palette, a grid whose cell count is
    /// a machine number, and a starting cell on the grid if one is given.
    pub open spec fn wf(self) -> bool {
        &&& self.symbols@.len() > 0
        &&& self.rows * self.columns <= usize::MAX
        &&& (self.home is Some ==> self.home.unwrap() < self.rows * self.columns)
    }

    /// The cell the walk begins at: the given one, or the grid's center.
    pub open spec fn start_index(self) -> usize {
        if self.home is Some {
            self.home.unwrap()
        } else {
            (((self.rows * self.columns - 1) as int) / 2) as usize
        }
    }

    /// The steps the bishop takes: the data decoded under the step budget.
    pub open spec fn walk_steps(self) -> Seq<Step> {
        decoded_steps(self.data@, self.steps)
    }

    /// The indices the bishop visits, one per step, walking from the cell
    /// `start` with per-axis clamping.
    pub open spec fn visited(self, start: usize) -> Seq<usize> {
        visited_from(
            self.columns,
            self.rows,
            (start as int % self.columns as int) as usize,
            (start as int / self.columns as int) as usize,
            self.walk_steps(),
        )
    }

    /// Trace a route for the bishop based on byte data.
    pub fn trace(&self, start_idx: usize) -> (r: Vec<usize>)
        requires
            self.columns >= 1,
            self.rows >= 1,
            self.rows * self.columns <= usize::MAX,
        ensures
            r@ == self.visited(start_idx),
            forall|k: int| 0 <= k < r@.len() ==> #[trigger] r@[k] < self.rows * self.columns,
    {
        let steps = steps_from_bytes(self.data.as_slice(), self.steps);
        let (mut x, mut y) = position_to_coordinates(self.columns, start_idx);
        let ghost x0 = x;
        let ghost y0 = y;
        let ghost all = steps@;
        let mut out: Vec<usize> = Vec::new();
        let mut k: usize = 0;
        while k < steps.len()
            invariant
                self.columns >= 1,
                self.rows >= 1,
                self.rows * self.columns <= usize::MAX,
                k <= all.len(),
                steps@ == all,
                x == end_position(self.columns, self.rows, x0, y0, all.take(k as int)).0,
                y == end_position(self.columns, self.rows, x0, y0, all.take(k as int)).1,
                out@ == visited_from(self.columns, self.rows, x0, y0, all.take(k as int)),
            decreases all.len() - k,
        {
            let s = steps[k];
            let (a, b) = s.transform(x, y);
            let nx = if a > self.columns - 1 {
                self.columns - 1
            } else {
                a
            };
            let ny = if b > self.rows - 1 {
                self.rows - 1
            } else {
                b
            };
            proof {
                assert(nx == step_x(self.columns, x, s));
                assert(ny == step_y(self.rows, y, s));
                assert(ny * self.columns + nx < self.rows * self.columns) by (nonlinear_arith)
                    requires
                        nx < self.columns,
                        ny < self.rows,
                        self.columns >= 1,
                        self.rows >= 1,
                ;
                lemma_visited_push(self.columns, self.rows, x0, y0, all.take(k as int), s);
                assert(all.take(k + 1) =~= all.take(k as int).push(all[k as int]));
            }
            x = nx;
            y = ny;
            let idx = coordinates_to_position(self.columns, x, y);
            out.push(idx);
            k += 1;
        }
        proof {
            assert(all.take(all.len() as int) =~= all);
            lemma_visited_in_bounds(self.columns, self.rows, x0, y0, all);
        }
        out
    }

    /// The index the walk ends at: the last visited index, or the start
    /// when no step was taken.
    pub open spec fn current_index(self) -> usize {
        if self.visited(self.start_index()).len() > 0 {
            self.visited(self.start_index()).last()
        } else {
            self.start_index()
        }
    }

    /// The symbol of one cell of the rendered grid: `'E'` at the cell a
    /// moving walk ends at, `'S'` at the start cell otherwise, and elsewhere
    /// the palette symbol of the cell's visit tally.
    pub open spec fn cell_symbol(self, i: usize) -> char {
        let visited = self.visited(self.start_index());
        if visited.len() > 0 && i == self.current_index() {
            'E'
        } else if i == self.start_index() {
            'S'
        } else {
            symbol_for(self.symbols@, count_of(visited, i), self.cycle)
        }
    }

    /// The rendered grid in row-major order: empty for an empty grid, the
    /// single start marker for a one-cell grid, and otherwise one symbol
    /// per cell.
    pub open spec fn render_spec(self) -> Seq<char> {
        let square_count = self.rows * self.columns;
        if square_count == 0 {
            Seq::empty()
        } else if square_count == 1 {
            seq!['S']
        } else {
            Seq::new(square_count as nat, |i: int| self.cell_symbol(i as usize))
        }
    }

    /// Render the grid into a row-major sequence of symbols.
    ///
    /// The result is a function of the board alone, so rendering the same
    /// board twice yields the same output.
    pub fn render(&self) -> (r: Vec<char>)
        requires
            self.wf(),
        ensures
            r@ == self.render_spec(),
            r@.len() == self.rows * self.columns,
    {
        let square_count = self.rows * self.columns;
        if square_count == 0 {
            Vec::new()
        } else if square_count == 1 {
            let mut v: Vec<char> = Vec::new();
            v.push('S');
            proof {
                assert(v@ =~= self.render_spec());
            }
            v
        } else {
            proof {
                assert(self.rows >= 1 && self.columns >= 1) by (nonlinear_arith)
                    requires
                        self.rows * self.columns >= 2,
                ;
            }
            let start_idx = match self.home {
                Some(h) => h,
                None => (square_count - 1) / 2,
            };
            let moves = self.trace(start_idx);
            let cur_idx = if moves.len() > 0 {
                moves[moves.len() - 1]
            } else {
                start_idx
            };
            let counts = visit_counts(&moves);
            let mut out: Vec<char> = Vec::new();
            let mut i: usize = 0;
            while i < square_count
                invariant
                    self.wf(),
                    square_count == self.rows * self.columns,
                    square_count >= 2,
                    start_idx == self.start_index(),
                    moves@ == self.visited(self.start_index()),
                    cur_idx == self.current_index(),
                    forall|k: usize| counts@.contains_key(k) <==> moves@.contains(k),
                    forall|k: usize|
                        counts@.contains_key(k) ==> #[trigger] counts@[k] as nat == count_of(
                            moves@,
                            k,
                        ),
                    i <= square_count,
                    out@.len() == i,
                    forall|j: int| 0 <= j < i ==> out@[j] == self.cell_symbol(j as usize),
                decreases square_count - i,
            {
                broadcast use vstd::std_specs::hash::group_hash_axioms;

                let c = if moves.len() > 0 && i == cur_idx {
                    'E'
                } else if i == start_idx {
                    'S'
                } else {
                    let n: usize = match counts.get(&i) {
                        Some(n) => *n,
                        None => 0,
                    };
                    proof {
                        lemma_count_of(moves@, i);
                    }
                    let l = self.symbols.len();
                    if n < l {
                        self.symbols[n]
                    } else if self.cycle {
                        self.symbols[n % l]
                    } else {
                        self.symbols[l - 1]
                    }
                };
                out.push(c);
                i += 1;
            }
            proof {
                assert(out@ =~= self.render_spec());
            }
            out
        }
    }
}

/// One line of a frame's border: a `'+'` corner, `width` dashes, a `'+'`.
pub open spec fn border_line(width: int) -> Seq<char>
    recommends
        width >= 0,
{
    seq!['+'] + Seq::new(width as nat, |i: int| '-') + seq!['+']
}

/// The interior lines of a frame: the cells cut into rows of `width`, each
/// row walled in by `'|'` on both sides. An undersized final row is kept
/// as it is.
pub open spec fn interior_lines(cells: Seq<char>, width: int) -> Seq<Seq<char>>
    decreases cells.len(),
{
    if width <= 0 || cells.len() == 0 {
        Seq::empty()
    } else if cells.len() <= width {
        seq![seq!['|'] + cells + seq!['|']]
    } else {
        seq![seq!['|'] + cells.take(width) + seq!['|']] + interior_lines(cells.skip(width), width)
    }
}

/// The interior of a frame flattened: each walled row followed by a newline.
pub open spec fn flat_rows(cells: Seq<char>, width: int) -> Seq<char>
    decreases cells.len(),
{
    if width <= 0 || cells.len() == 0 {
        Seq::empty()
    } else if cells.len() <= width {
        seq!['|'] + cells + seq!['|', '\n']
    } else {
        seq!['|'] + cells.take(width) + seq!['|', '\n'] + flat_rows(cells.skip(width), width)
    }
}

/// Every line of a frame in order: the top border, the interior rows, the
/// bottom border. With zero width there are no interior rows.
pub open spec fn frame_lines(cells: Seq<char>, width: int) -> Seq<Seq<char>> {
    seq![border_line(width)] + interior_lines(cells, width) + seq![border_line(width)]
}

/// Lines joined by single newlines, with no newline after the last.
pub open spec fn join_lines(lines: Seq<Seq<char>>) -> Seq<char>
    decreases lines.len(),
{
    if lines.len() == 0 {
        Seq::empty()
    } else if lines.len() == 1 {
        lines[0]
    } else {
        lines[0] + seq!['\n'] + join_lines(lines.drop_first())
    }
}

/// A framed grid: its frame lines joined by newlines.
pub open spec fn frame_spec(cells: Seq<char>, width: int) -> Seq<char> {
    join_lines(frame_lines(cells, width))
}

/// Joining lines distributes over taking off the first line.
proof fn lemma_join_cons(first: Seq<char>, rest: Seq<Seq<char>>)
    requires
        rest.len() >= 1,
    ensures
        join_lines(seq![first] + rest) == first + seq!['\n'] + join_lines(rest),
{
    let all = seq![first] + rest;
    assert(all[0] == first);
    assert(all.drop_first() =~= rest);
    assert(join_lines(all) == all[0] + seq!['\n'] + join_lines(all.drop_first()));
}

/// The interior lines followed by a closing line join to the flattened
/// interior followed by that line.
proof fn lemma_join_interior(cells: Seq<char>, width: int, closing: Seq<char>)
    requires
        width >= 1,
    ensures
        join_lines(interior_lines(cells, width).push(closing)) == flat_rows(cells, width)
            + closing,
    decreases cells.len(),
{
    if cells.len() == 0 {
        assert(interior_lines(cells, width).push(closing) =~= seq![closing]);
        assert(join_lines(seq![closing]) == closing);
        assert(flat_rows(cells, width) + closing =~= closing);
    } else if cells.len() <= width {
        let row = seq!['|'] + cells + seq!['|'];
        assert(interior_lines(cells, width).push(closing) =~= seq![row] + seq![closing]);
        lemma_join_cons(row, seq![closing]);
        assert(join_lines(seq![closing]) == closing);
        assert(row + seq!['\n'] + closing =~= flat_rows(cells, width) + closing);
    } else {
        let row = seq!['|'] + cells.take(width) + seq!['|'];
        let rest = cells.skip(width);
        lemma_join_interior(rest, width, closing);
        assert(interior_lines(cells, width).push(closing) =~= seq![row] + interior_lines(
            rest,
            width,
        ).push(closing));
        lemma_join_cons(row, interior_lines(rest, width).push(closing));
        assert(row + seq!['\n'] + (flat_rows(rest, width) + closing) =~= flat_rows(cells, width)
            + closing);
    }
}

/// A framed grid is the top border, a newline, the flattened interior, and
/// the bottom border.
proof fn lemma_frame_as_flat(cells: Seq<char>, width: int)
    requires
        width >= 0,
    ensures
        frame_spec(cells, width) == border_line(width) + seq!['\n'] + flat_rows(cells, width)
            + border_line(width),
{
    let border = border_line(width);
    if width == 0 || cells.len() == 0 {
        assert(interior_lines(cells, width) =~= Seq::<Seq<char>>::empty());
        assert(frame_lines(cells, width) =~= seq![border] + seq![border]);
        lemma_join_cons(border, seq![border]);
        assert(join_lines(seq![border]) == border);
        assert(border + seq!['\n'] + border =~= border + seq!['\n'] + flat_rows(cells, width)
            + border);
    } else {
        assert(frame_lines(cells, width) =~= seq![border] + interior_lines(cells, width).push(
            border,
        ));
        lemma_join_cons(border, interior_lines(cells, width).push(border));
        lemma_join_interior(cells, width, border);
        assert(border + seq!['\n'] + (flat_rows(cells, width) + border) =~= border + seq!['\n']
            + flat_rows(cells, width) + border);
    }
}

/// Flattening frame rows distributes over splitting the cells at a row
/// boundary.
proof fn lemma_flat_rows_concat(c: Seq<char>, d: Seq<char>, width: int)
    requires
        width >= 1,
        c.len() as int % width == 0,
    ensures
        flat_rows(c + d, width) == flat_rows(c, width) + flat_rows(d, width),
    decreases c.len(),
{
    if c.len() == 0 {
        assert(c + d =~= d);
        assert(flat_rows(c, width) + flat_rows(d, width) =~= flat_rows(d, width));
    } else {
        if c.len() < width {
            vstd::arithmetic::div_mod::lemma_small_mod(c.len(), width as nat);
            assert(false);
        }
        let rest = c.skip(width);
        assert((c.len() - width) % width == 0) by {
            vstd::arithmetic::div_mod::lemma_mod_sub_multiples_vanish(c.len() as int, width);
        }
        if d.len() == 0 {
            assert(c + d =~= c);
            assert(flat_rows(c, width) + flat_rows(d, width) =~= flat_rows(c, width));
        } else {
            assert((c + d).take(width) =~= c.take(width));
            assert((c + d).skip(width) =~= rest + d);
            lemma_flat_rows_concat(rest, d, width);
            assert(seq!['|'] + c.take(width) + seq!['|', '\n'] + (flat_rows(rest, width)
                + flat_rows(d, width)) =~= flat_rows(c, width) + flat_rows(d, width));
        }
    }
}

/// The framing law: with `width` dividing the cell count, a frame has one
/// line per row of cells plus the two borders, and every line is `width`
/// plus the two wall characters long.
pub proof fn lemma_frame_lines_shape(cells: Seq<char>, width: int)
    requires
        width >= 1,
        cells.len() as int % width == 0,
    ensures
        frame_lines(cells, width).len() == cells.len() as int / width + 2,
        forall|i: int|
            0 <= i < frame_lines(cells, width).len() ==> #[trigger] frame_lines(cells, width)[i]
                .len() == width + 2,
    decreases cells.len(),
{
    lemma_interior_shape(cells, width);
    assert(border_line(width).len() == width + 2);
    assert(frame_lines(cells, width).len() == cells.len() as int / width + 2);
}

/// The interior of a well-cut frame has one line per row of cells, each
/// `width + 2` long.
proof fn lemma_interior_shape(cells: Seq<char>, width: int)
    requires
        width >= 1,
        cells.len() as int % width == 0,
    ensures
        interior_lines(cells, width).len() == cells.len() as int / width,
        forall|i: int|
            0 <= i < interior_lines(cells, width).len() ==> #[trigger] interior_lines(
                cells,
                width,
            )[i].len() == width + 2,
    decreases cells.len(),
{
    if cells.len() == 0 {
        assert(cells.len() as int / width == 0);
    } else if cells.len() <= width {
        if cells.len() < width {
            vstd::arithmetic::div_mod::lemma_small_mod(cells.len(), width as nat);
            assert(false);
        }
        vstd::arithmetic::div_mod::lemma_div_by_self(width);
        assert(interior_lines(cells, width).len() == 1);
        assert(interior_lines(cells, width)[0].len() == width + 2);
    } else {
        let rest = cells.skip(width);
        assert((cells.len() - width) % width == 0) by {
            vstd::arithmetic::div_mod::lemma_mod_sub_multiples_vanish(cells.len() as int, width);
        }
        lemma_interior_shape(rest, width);
        assert(cells.len() as int / width == rest.len() as int / width + 1) by {
            vstd::arithmetic::div_mod::lemma_hoist_over_denominator(
                rest.len() as int,
                1,
                width as nat,
            );
        }
    }
}

/// Relies on `String`'s `FromIterator<char>` implementation: collecting
/// characters yields the string of exactly those characters in order.
#[verifier::external_body]
fn chars_to_string(v: &Vec<char>) -> (r: String)
    ensures
        r@ == v@,
{
    v.iter().collect()
}

/// Draw a frame around a grid of cells with a given row width.
pub fn frame(cells: &Vec<char>, width: usize) -> (r: String)
    requires
        width == 0 || cells@.len() as int % (width as int) == 0,
    ensures
        r@ == frame_spec(cells@, width as int),
{
    let mut buf: Vec<char> = Vec::new();
    buf.push('+');
    let mut d: usize = 0;
    while d < width
        invariant
            d <= width,
            buf@ =~= seq!['+'] + Seq::new(d as nat, |i: int| '-'),
        decreases width - d,
    {
        buf.push('-');
        d += 1;
        proof {
            assert(buf@ =~= seq!['+'] + Seq::new(d as nat, |i: int| '-'));
        }
    }
    buf.push('+');
    buf.push('\n');
    proof {
        assert(buf@ =~= border_line(width as int) + seq!['\n']);
    }
    if width > 0 {
        let mut done: usize = 0;
        while done < cells.len()
            invariant
                width >= 1,
                done <= cells@.len(),
                cells@.len() as int % (width as int) == 0,
                done as int % (width as int) == 0,
                buf@ == border_line(width as int) + seq!['\n'] + flat_rows(
                    cells@.take(done as int),
                    width as int,
                ),
            decreases cells@.len() - done,
        {
            proof {
                lemma_chunk_fits(done as int, cells@.len() as int, width as int);
            }
            buf.push('|');
            let mut j: usize = 0;
            while j < width
                invariant
                    j <= width,
                    done + width <= cells@.len(),
                    cells@.len() <= usize::MAX,
                    buf@ =~= border_line(width as int) + seq!['\n'] + flat_rows(
                        cells@.take(done as int),
                        width as int,
                    ) + seq!['|'] + cells@.subrange(done as int, done + j),
                decreases width - j,
            {
                buf.push(cells[done + j]);
                j += 1;
                proof {
                    assert(buf@ =~= border_line(width as int) + seq!['\n'] + flat_rows(
                        cells@.take(done as int),
                        width as int,
                    ) + seq!['|'] + cells@.subrange(done as int, done + j));
                }
            }
            buf.push('|');
            buf.push('\n');
            proof {
                let chunk = cells@.subrange(done as int, done + width);
                lemma_flat_rows_concat(cells@.take(done as int), chunk, width as int);
                assert(cells@.take(done as int) + chunk =~= cells@.take(done + width));
                assert(flat_rows(chunk, width as int) == seq!['|'] + chunk + seq!['|', '\n']);
                assert(buf@ =~= border_line(width as int) + seq!['\n'] + flat_rows(
                    cells@.take(done + width),
                    width as int,
                ));
                vstd::arithmetic::div_mod::lemma_mod_add_multiples_vanish(done as int, width as int);
            }
            done += width;
        }
        proof {
            assert(cells@.take(cells@.len() as int) =~= cells@);
        }
    }
    proof {
        if width == 0 {
            assert(flat_rows(cells@, width as int) == Seq::<char>::empty());
            assert(buf@ =~= border_line(width as int) + seq!['\n'] + flat_rows(
                cells@,
                width as int,
            ));
        }
    }
    buf.push('+');
    let mut d2: usize = 0;
    while d2 < width
        invariant
            d2 <= width,
            buf@ =~= border_line(width as int) + seq!['\n'] + flat_rows(cells@, width as int)
                + seq!['+'] + Seq::new(d2 as nat, |i: int| '-'),
        decreases width - d2,
    {
        buf.push('-');
        d2 += 1;
        proof {
            assert(buf@ =~= border_line(width as int) + seq!['\n'] + flat_rows(
                cells@,
                width as int,
            ) + seq!['+'] + Seq::new(d2 as nat, |i: int| '-'));
        }
    }
    buf.push('+');
    proof {
        lemma_frame_as_flat(cells@, width as int);
        assert(buf@ =~= frame_spec(cells@, width as int));
    }
    chars_to_string(&buf)
}

/// A multiple of the width that is short of the cell count leaves room for
/// one more full row.
proof fn lemma_chunk_fits(done: int, len: int, width: int)
    requires
        width >= 1,
        0 <= done < len,
        done % width == 0,
        len % width == 0,
    ensures
        done + width <= len,
{
    vstd::arithmetic::div_mod::lemma_fundamental_div_mod(done, width);
    vstd::arithmetic::div_mod::lemma_fundamental_div_mod(len, width);
    let dq = done / width;
    let lq = len / width;
    assert(done + width <= len) by (nonlinear_arith)
        requires
            width >= 1,
            done == width * dq,
            len == width * lq,
            done < len,
    ;
}

impl DrunkenBishop {
    /// A board over the given data and shape, with the default palette, the
    /// center starting cell and the given cycling policy.
    pub fn new(data: Vec<u8>, rows: usize, columns: usize, steps: usize, cycle: bool) -> (r:
        DrunkenBishop)
        requires
            rows * columns <= usize::MAX,
        ensures
            r.data@ == data@,
            r.rows == rows,
            r.columns == columns,
            r.steps == steps,
            r.symbols@ == default_palette(),
            r.home is None,
            r.cycle == cycle,
            r.wf(),
    {
        DrunkenBishop { data, rows, columns, steps, symbols: default_symbols(), home: None, cycle }
    }

    /// Render the grid and wrap it in its frame.
    pub fn framed(&self) -> (r: String)
        requires
            self.wf(),
        ensures
            r@ == frame_spec(self.render_spec(), self.columns as int),
    {
        let cells = self.render();
        proof {
            if self.columns > 0 {
                vstd::arithmetic::div_mod::lemma_mod_multiples_basic(
                    self.rows as int,
                    self.columns as int,
                );
            }
        }
        frame(&cells, self.columns)
    }
}

/// Rendering is deterministic: boards with equal configurations render to
/// equal output, as `render` returns `render_spec` of its board alone.
pub proof fn lemma_render_deterministic(a: DrunkenBishop, b: DrunkenBishop)
    requires
        a.data@ == b.data@,
        a.rows == b.rows,
        a.columns == b.columns,
        a.steps == b.steps,
        a.symbols@ == b.symbols@,
        a.home == b.home,
        a.cycle == b.cycle,
    ensures
        a.render_spec() == b.render_spec(),
{
    assert(a.visited(a.start_index()) == b.visited(b.start_index()));
    assert forall|i: usize| true implies a.cell_symbol(i) == b.cell_symbol(i) by {
        assert(a.current_index() == b.current_index());
    }
    assert(a.render_spec() =~= b.render_spec());
}

/// The degenerate grids: a grid with no cells renders to nothing, and a
/// one-cell grid renders to the single start marker.
pub proof fn lemma_render_degenerate(b: DrunkenBishop)
    ensures
        b.rows * b.columns == 0 ==> b.render_spec() == Seq::<char>::empty(),
        b.rows * b.columns == 1 ==> b.render_spec() == seq!['S'],
{
}

/// The rendered grid always holds exactly one symbol per cell.
pub proof fn lemma_render_len(b: DrunkenBishop)
    ensures
        b.render_spec().len() == b.rows * b.columns,
{
}

/// The framing law applied to a rendered board: the framed render consists
/// of `rows + 2` lines joined by newlines, each `columns + 2` long.
pub proof fn lemma_framed_shape(b: DrunkenBishop)
    requires
        b.columns >= 1,
    ensures
        frame_spec(b.render_spec(), b.columns as int) == join_lines(
            frame_lines(b.render_spec(), b.columns as int),
        ),
        frame_lines(b.render_spec(), b.columns as int).len() == b.rows + 2,
        forall|i: int|
            0 <= i < frame_lines(b.render_spec(), b.columns as int).len()
                ==> #[trigger] frame_lines(b.render_spec(), b.columns as int)[i].len()
                == b.columns + 2,
{
    vstd::arithmetic::div_mod::lemma_mod_multiples_basic(b.rows as int, b.columns as int);
    lemma_render_len(b);
    lemma_frame_lines_shape(b.render_spec(), b.columns as int);
    assert((b.rows * b.columns) as int / b.columns as int == b.rows as int) by {
        vstd::arithmetic::div_mod::lemma_div_by_multiple(b.rows as int, b.columns as int);
        assert(b.rows * b.columns == (b.rows as int) * (b.columns as int));
    }
}

/// Relies on `itertools::Itertools::counts`: the returned map sends each
/// distinct element of the sequence to the number of times it occurs, and
/// holds no other key.
#[verifier::external_body]
fn visit_counts(moves: &Vec<usize>) -> (r: HashMap<usize, usize>)
    ensures
        forall|k: usize| r@.contains_key(k) <==> moves@.contains(k),
        forall|k: usize| r@.contains_key(k) ==> #[trigger] r@[k] as nat == count_of(moves@, k),
{
    moves.iter().copied().counts()
}

} // verus!
