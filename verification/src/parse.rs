//! Plain-text world snapshots: parsing.
//!
//! A snapshot is rows separated by line breaks; within a row `.` is a dead
//! cell and `0` a living one, at increasing x, with the row index as y. Any
//! other character is a parse failure, reported with its position instead of
//! crashing.

use crate::gol::{Coordinate, Game, lemma_seq_max_x_is_max, lemma_seq_max_y_is_max, seq_max_x,
    seq_max_y};
use vstd::arithmetic::div_mod::{lemma_fundamental_div_mod, lemma_fundamental_div_mod_converse,
    lemma_mod_pos_bound};
use vstd::prelude::*;

verus! {

/// The snapshot alphabet: dead cell, living cell, row separator.
pub open spec fn recognized(c: char) -> bool {
    c == '.' || c == '0' || c == '\n'
}

/// Every character of `s` belongs to the snapshot alphabet.
pub open spec fn all_recognized(s: Seq<char>) -> bool {
    forall|j: int| 0 <= j < s.len() ==> recognized(#[trigger] s[j])
}

/// The column a cursor scanning `s` is at just before index `i`: characters
/// since the last line break.
pub open spec fn col_of(s: Seq<char>, i: int) -> int
    decreases i,
{
    if i <= 0 {
        0
    } else if s[i - 1] == '\n' {
        0
    } else {
        col_of(s, i - 1) + 1
    }
}

/// The row a cursor scanning `s` is at just before index `i`: line breaks
/// seen so far.
pub open spec fn row_of(s: Seq<char>, i: int) -> int
    decreases i,
{
    if i <= 0 {
        0
    } else if s[i - 1] == '\n' {
        row_of(s, i - 1) + 1
    } else {
        row_of(s, i - 1)
    }
}

/// One of the first `n` characters of `s` is a `0` standing at column x of
/// row y.
pub open spec fn zero_before(s: Seq<char>, n: int, x: int, y: int) -> bool {
    exists|i: int|
        0 <= i < n && #[trigger] s[i] == '0' && col_of(s, i) == x && row_of(s, i) == y
}

/// Some character of `s` is a `0` standing at column x of row y: the cell
/// (x, y) of the parsed world is alive.
pub open spec fn zero_at(s: Seq<char>, x: int, y: int) -> bool {
    zero_before(s, s.len() as int, x, y)
}

/// A character outside the snapshot alphabet, with where it stood.
#[derive(PartialEq, Eq, Structural, Clone, Copy, Debug)]
pub struct ParseError {
    /// The offending character.
    pub character: char,
    /// Its index in the input.
    pub index: usize,
    /// The column the cursor was at.
    pub x: i32,
    /// The row the cursor was at.
    pub y: i32,
}

/// Builds the world a snapshot describes: exactly the cells written `0` are
/// alive. Fails on the first character outside the snapshot alphabet,
/// naming it and its position.
#[verifier::loop_isolation(false)]
pub fn parse_world(world: &str) -> (r: Result<Game, ParseError>)
    requires
        world@.len() <= i32::MAX as int,
    ensures
        (r is Ok) <==> all_recognized(world@),
        r matches Ok(g) ==> g.wf() && (forall|x: int, y: int|
            #[trigger] g.live(x, y) <==> zero_at(world@, x, y)),
        r matches Err(e) ==> 0 <= e.index < world@.len() && !recognized(world@[e.index as int])
            && (forall|j: int| 0 <= j < e.index ==> recognized(#[trigger] world@[j]))
            && e.character == world@[e.index as int] && e.x as int == col_of(
            world@,
            e.index as int,
        ) && e.y as int == row_of(world@, e.index as int),
{
    let n = world.unicode_len();
    let mut game = Game::new();
    let mut x: i32 = 0;
    let mut y: i32 = 0;
    let mut i: usize = 0;
    while i < n
        invariant
            i <= n,
            x as int == col_of(world@, i as int),
            y as int == row_of(world@, i as int),
            0 <= x as int <= i as int,
            0 <= y as int <= i as int,
            game.wf(),
            forall|j: int| 0 <= j < i ==> recognized(#[trigger] world@[j]),
            forall|cx: int, cy: int|
                #[trigger] game.live(cx, cy) <==> zero_before(world@, i as int, cx, cy),
        decreases n - i,
    {
        let c = world.get_char(i);
        if c == '0' {
            game.bring_to_life(&Coordinate { x, y });
            proof {
                assert forall|cx: int, cy: int|
                    #[trigger] game.live(cx, cy) <==> zero_before(world@, i + 1, cx, cy) by {
                    if game.live(cx, cy) {
                        if zero_before(world@, i as int, cx, cy) {
                            let j = choose|j: int|
                                0 <= j < i && #[trigger] world@[j] == '0' && col_of(world@, j)
                                    == cx && row_of(world@, j) == cy;
                            assert(world@[j] == '0' && col_of(world@, j) == cx && row_of(world@, j)
                                == cy);
                        } else {
                            assert(world@[i as int] == '0' && col_of(world@, i as int) == cx
                                && row_of(world@, i as int) == cy);
                        }
                    }
                    if zero_before(world@, i + 1, cx, cy) {
                        let j = choose|j: int|
                            0 <= j < i + 1 && #[trigger] world@[j] == '0' && col_of(world@, j)
                                == cx && row_of(world@, j) == cy;
                        if j < i {
                            assert(zero_before(world@, i as int, cx, cy));
                        } else {
                            assert(cx == x as int && cy == y as int);
                        }
                    }
                }
            }
            x = x + 1;
        } else if c == '.' {
            proof {
                assert forall|cx: int, cy: int|
                    #[trigger] game.live(cx, cy) <==> zero_before(world@, i + 1, cx, cy) by {
                    if zero_before(world@, i + 1, cx, cy) {
                        let j = choose|j: int|
                            0 <= j < i + 1 && #[trigger] world@[j] == '0' && col_of(world@, j)
                                == cx && row_of(world@, j) == cy;
                        assert(j < i);
                        assert(zero_before(world@, i as int, cx, cy));
                    }
                    if zero_before(world@, i as int, cx, cy) {
                        let j = choose|j: int|
                            0 <= j < i && #[trigger] world@[j] == '0' && col_of(world@, j) == cx
                                && row_of(world@, j) == cy;
                        assert(zero_before(world@, i + 1, cx, cy));
                    }
                }
            }
            x = x + 1;
        } else if c == '\n' {
            proof {
                assert forall|cx: int, cy: int|
                    #[trigger] game.live(cx, cy) <==> zero_before(world@, i + 1, cx, cy) by {
                    if zero_before(world@, i + 1, cx, cy) {
                        let j = choose|j: int|
                            0 <= j < i + 1 && #[trigger] world@[j] == '0' && col_of(world@, j)
                                == cx && row_of(world@, j) == cy;
                        assert(j < i);
                        assert(zero_before(world@, i as int, cx, cy));
                    }
                    if zero_before(world@, i as int, cx, cy) {
                        let j = choose|j: int|
                            0 <= j < i && #[trigger] world@[j] == '0' && col_of(world@, j) == cx
                                && row_of(world@, j) == cy;
                        assert(zero_before(world@, i + 1, cx, cy));
                    }
                }
            }
            x = 0;
            y = y + 1;
        } else {
            return Err(ParseError { character: c, index: i, x, y });
        }
        i = i + 1;
    }
    Ok(game)
}

/// `s` is cut into rows of `w` cell characters each: a line break stands
/// exactly at every position congruent to `w` modulo `w + 1`.
pub open spec fn grid_shape(s: Seq<char>, w: int) -> bool {
    forall|k: int| 0 <= k < s.len() ==> ((#[trigger] s[k]) == '\n' <==> k % (w + 1) == w)
}

/// Some character of `s` is a living cell.
pub open spec fn has_zero(s: Seq<char>) -> bool {
    exists|k: int| 0 <= k < s.len() && #[trigger] s[k] == '0'
}

/// A well-formed snapshot of `h` rows, each of `w` cell characters closed
/// by a line break: every character is in the alphabet, the trailing column
/// is dead, and the dimensions match the bounding box of the living cells
/// (for a world with none, the one-row two-column empty snapshot).
pub open spec fn snapshot_wf(s: Seq<char>, w: int, h: int) -> bool {
    &&& w >= 2
    &&& h >= 1
    &&& s.len() == h * (w + 1)
    &&& all_recognized(s)
    &&& grid_shape(s, w)
    &&& forall|r: int| 0 <= r < h ==> #[trigger] s[r * (w + 1) + w - 1] == '.'
    &&& if has_zero(s) {
        (exists|y: int| #[trigger] zero_at(s, w - 2, y)) && (exists|x: int|
        #[trigger] zero_at(s, x, h - 1))
    } else {
        w == 2 && h == 1
    }
}

/// On a grid-shaped string the scanning cursor is plain index arithmetic:
/// before index `i` it stands at column `i % (w + 1)` of row `i / (w + 1)`.
proof fn lemma_grid_cursor(s: Seq<char>, w: int, i: int)
    requires
        w >= 1,
        grid_shape(s, w),
        0 <= i <= s.len(),
    ensures
        col_of(s, i) == i % (w + 1),
        row_of(s, i) == i / (w + 1),
    decreases i,
{
    let m = w + 1;
    if i == 0 {
        lemma_fundamental_div_mod_converse(0, m, 0, 0);
    } else {
        lemma_grid_cursor(s, w, i - 1);
        lemma_fundamental_div_mod(i - 1, m);
        lemma_mod_pos_bound(i - 1, m);
        let q = (i - 1) / m;
        let r = (i - 1) % m;
        if r == w {
            assert(s[i - 1] == '\n');
            assert(m * (q + 1) == m * q + m) by (nonlinear_arith);
            lemma_fundamental_div_mod_converse(i, m, q + 1, 0);
        } else {
            assert(s[i - 1] != '\n');
            lemma_fundamental_div_mod_converse(i, m, q, r + 1);
        }
    }
}

/// Every living cell a well-formed snapshot describes lies inside its
/// bounding box: columns 0 through w - 2, rows 0 through h - 1.
proof fn lemma_zero_bounds(s: Seq<char>, w: int, h: int, x: int, y: int)
    requires
        snapshot_wf(s, w, h),
        zero_at(s, x, y),
    ensures
        0 <= x <= w - 2,
        0 <= y <= h - 1,
{
    let m = w + 1;
    let j = choose|j: int|
        0 <= j < s.len() && #[trigger] s[j] == '0' && col_of(s, j) == x && row_of(s, j) == y;
    lemma_grid_cursor(s, w, j);
    lemma_fundamental_div_mod(j, m);
    lemma_mod_pos_bound(j, m);
    assert(0 <= x < m);
    assert(0 <= y < h) by (nonlinear_arith)
        requires
            j == m * y + x,
            0 <= x < m,
            0 <= j < h * m,
            m >= 1,
    ;
    if x == w {
        assert(s[j] == '\n');
        assert(false);
    }
    if x == w - 1 {
        assert(s[y * m + w - 1] == '.');
        assert(false);
    }
}

/// Law: rendering the world a well-formed snapshot parses to yields the
/// snapshot again, character for character. `g` is any world whose living
/// cells are exactly the `0` characters of the snapshot `s` (what
/// `parse_world` ensures), and `out` is any string with the length and
/// characters `render` ensures for `g`; then `out` is `s` itself.
pub proof fn lemma_parse_render_round_trip(s: Seq<char>, w: int, h: int, g: Game, out: Seq<char>)
    requires
        snapshot_wf(s, w, h),
        forall|x: int, y: int| #[trigger] g.live(x, y) <==> zero_at(s, x, y),
        out.len() == g.render_rows() * (g.render_cols() + 1),
        forall|y: int, x: int|
            0 <= y < g.render_rows() && 0 <= x < g.render_cols()
                ==> #[trigger] out[y * (g.render_cols() + 1) + x] == (if g.live(x, y) {
                '0'
            } else {
                '.'
            }),
        forall|y: int|
            0 <= y < g.render_rows() ==> #[trigger] out[y * (g.render_cols() + 1)
                + g.render_cols()] == '\n',
    ensures
        out == s,
{
    let m = w + 1;
    lemma_seq_max_x_is_max(g.entries());
    lemma_seq_max_y_is_max(g.entries());
    // Every stored cell is a zero of the snapshot, so it lies in the box.
    assert forall|i: int| 0 <= i < g.entries().len() implies 0 <= (#[trigger] g.entries()[i]).0.x
        <= w - 2 && 0 <= g.entries()[i].0.y <= h - 1 by {
        let cx = g.entries()[i].0.x as int;
        let cy = g.entries()[i].0.y as int;
        assert(g.live(cx, cy));
        lemma_zero_bounds(s, w, h, cx, cy);
    }
    if has_zero(s) {
        // The bounding box is tight: its edge column and edge row are hit.
        let ey = choose|y: int| #[trigger] zero_at(s, w - 2, y);
        assert(g.live(w - 2, ey));
        let i1 = choose|i: int|
            0 <= i < g.entries().len() && (#[trigger] g.entries()[i]).0.x == w - 2
                && g.entries()[i].0.y == ey;
        assert(g.entries()[i1].0.x <= seq_max_x(g.entries()));
        assert(seq_max_x(g.entries()) == w - 2);
        let ex = choose|x: int| #[trigger] zero_at(s, x, h - 1);
        assert(g.live(ex, h - 1));
        let i2 = choose|i: int|
            0 <= i < g.entries().len() && (#[trigger] g.entries()[i]).0.x == ex
                && g.entries()[i].0.y == h - 1;
        assert(g.entries()[i2].0.y <= seq_max_y(g.entries()));
        assert(seq_max_y(g.entries()) == h - 1);
    } else {
        // No zero, so no cell is stored, and the box is the empty default.
        if g.entries().len() > 0 {
            let cx = g.entries()[0].0.x as int;
            let cy = g.entries()[0].0.y as int;
            assert(g.live(cx, cy));
            let j = choose|j: int|
                0 <= j < s.len() && #[trigger] s[j] == '0' && col_of(s, j) == cx && row_of(s, j)
                    == cy;
            assert(has_zero(s));
            assert(false);
        }
        assert(seq_max_x(g.entries()) == 0);
        assert(seq_max_y(g.entries()) == 0);
    }
    assert(g.render_cols() == w);
    assert(g.render_rows() == h);
    assert(out.len() == s.len());
    assert forall|k: int| 0 <= k < s.len() implies out[k] == s[k] by {
        lemma_grid_cursor(s, w, k);
        lemma_fundamental_div_mod(k, m);
        lemma_mod_pos_bound(k, m);
        let yy = k / m;
        let xx = k % m;
        assert(0 <= yy < h) by (nonlinear_arith)
            requires
                k == m * yy + xx,
                0 <= xx < m,
                0 <= k < h * m,
                m >= 1,
        ;
        assert(yy * (g.render_cols() + 1) == m * yy) by (nonlinear_arith)
            requires
                g.render_cols() + 1 == m,
        ;
        assert(k == yy * (g.render_cols() + 1) + xx);
        if xx == w {
            assert(out[yy * (g.render_cols() + 1) + g.render_cols()] == '\n');
            assert(s[k] == '\n');
        } else {
            assert(out[yy * (g.render_cols() + 1) + xx] == (if g.live(xx, yy) {
                '0'
            } else {
                '.'
            }));
            assert(s[k] != '\n');
            assert(recognized(s[k]));
            if s[k] == '0' {
                assert(zero_at(s, xx, yy));
                assert(g.live(xx, yy));
            } else {
                assert(s[k] == '.');
                if g.live(xx, yy) {
                    let j = choose|j: int|
                        0 <= j < s.len() && #[trigger] s[j] == '0' && col_of(s, j) == xx && row_of(
                            s,
                            j,
                        ) == yy;
                    lemma_grid_cursor(s, w, j);
                    lemma_fundamental_div_mod(j, m);
                    assert(j == k);
                    assert(false);
                }
            }
        }
    }
    assert(out =~= s);
}

} // verus!
