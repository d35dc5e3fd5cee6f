//! The grid builder and placement engine: random placement of words on a
//! square letter grid, collision checking, and the filler pass.
use rand::seq::SliceRandom;
use vstd::prelude::*;

use crate::rng::{gen_range_u8, gen_range_usize, new_rng, shuffle_words};
use crate::words::{filtered_words, get_words, lemma_filtered_word_lengths, views_of};

verus! {

/// One of the eight compass directions a word can run in.
#[derive(Clone, Copy, PartialEq, Eq, Structural, Debug)]
pub enum WordDirection {
    North,
    NorthEast,
    East,
    SouthEast,
    South,
    SouthWest,
    West,
    NorthWest,
}

/// A finished puzzle: the flat row-major letter grid and the words hidden in it.
pub struct WordGrid {
    pub words: Vec<String>,
    pub grid: Vec<char>,
}

/// Horizontal step of a direction, in columns per character.
pub open spec fn dir_dx(d: WordDirection) -> int {
    match d {
        WordDirection::North => 0,
        WordDirection::NorthEast => 1,
        WordDirection::East => 1,
        WordDirection::SouthEast => 1,
        WordDirection::South => 0,
        WordDirection::SouthWest => -1,
        WordDirection::West => -1,
        WordDirection::NorthWest => -1,
    }
}

/// Vertical step of a direction, in rows per character.
pub open spec fn dir_dy(d: WordDirection) -> int {
    match d {
        WordDirection::North => -1,
        WordDirection::NorthEast => -1,
        WordDirection::East => 0,
        WordDirection::SouthEast => 1,
        WordDirection::South => 1,
        WordDirection::SouthWest => 1,
        WordDirection::West => 0,
        WordDirection::NorthWest => -1,
    }
}

/// The byte codes of 'A' and 'Z': filler letters are drawn from 'A'..'Z'.
pub const ASCII_A: u8 = 65;

pub const ASCII_Z: u8 = 90;

/// Whether (dx, dy) is the step of one of the eight compass directions.
pub open spec fn is_dir_delta(dx: int, dy: int) -> bool {
    -1 <= dx <= 1 && -1 <= dy <= 1 && !(dx == 0 && dy == 0)
}

/// Row-major index of the cell reached from (x, y) after t steps of (dx, dy).
pub open spec fn lin_index(size: int, x: int, y: int, dx: int, dy: int, t: int) -> int {
    (x + t * dx) + (y + t * dy) * size
}

/// The cell reached from (x, y) after t steps of (dx, dy) lies on the grid.
pub open spec fn cell_in_bounds(size: int, x: int, y: int, dx: int, dy: int, t: int) -> bool {
    0 <= x + t * dx < size && 0 <= y + t * dy < size
}

/// All `len` cells stepped from (x, y) along (dx, dy) lie on the grid.
pub open spec fn path_in_bounds(size: int, x: int, y: int, dx: int, dy: int, len: int) -> bool {
    forall|t: int| 0 <= t < len ==> #[trigger] cell_in_bounds(size, x, y, dx, dy, t)
}

/// `word` is spelled out cell by cell from (x, y) stepping (dx, dy), with the
/// whole run inside the grid.
pub open spec fn spelled_at(
    grid: Seq<char>,
    size: int,
    x: int,
    y: int,
    dx: int,
    dy: int,
    word: Seq<char>,
) -> bool {
    &&& path_in_bounds(size, x, y, dx, dy, word.len() as int)
    &&& forall|t: int|
        0 <= t < word.len() ==> #[trigger] grid[lin_index(size, x, y, dx, dy, t)] == word[t]
}

/// Some start cell and some direction spell `word` on the grid.
pub open spec fn word_present(grid: Seq<char>, size: int, word: Seq<char>) -> bool {
    exists|x: int, y: int, dx: int, dy: int|
        is_dir_delta(dx, dy) && #[trigger] spelled_at(grid, size, x, y, dx, dy, word)
}

/// `c` occurs in one of the words of `ws`.
pub open spec fn from_some_word(c: char, ws: Seq<Seq<char>>) -> bool {
    exists|k: int| 0 <= k < ws.len() && (#[trigger] ws[k]).contains(c)
}

/// Every cell is either still the empty marker or a character of some word.
pub open spec fn grid_cells_ok(grid: Seq<char>, ws: Seq<Seq<char>>) -> bool {
    forall|i: int| 0 <= i < grid.len() ==> (#[trigger] grid[i]) == ' ' || from_some_word(grid[i], ws)
}

/// Every space-free word of `ws` can be read off the grid.
pub open spec fn placed_words_present(grid: Seq<char>, size: int, ws: Seq<Seq<char>>) -> bool {
    forall|k: int|
        0 <= k < ws.len() && !(#[trigger] ws[k]).contains(' ') ==> word_present(grid, size, ws[k])
}

/// One concrete placement, from grid `g1` to grid `g2`: the run from (x, y)
/// along (dx, dy) was entirely empty markers before, spells `word` after,
/// and no cell off the run changed.
pub open spec fn placed_run(
    g1: Seq<char>,
    g2: Seq<char>,
    size: int,
    x: int,
    y: int,
    dx: int,
    dy: int,
    word: Seq<char>,
) -> bool {
    &&& is_dir_delta(dx, dy)
    &&& spelled_at(g2, size, x, y, dx, dy, word)
    &&& forall|t: int|
        0 <= t < word.len() ==> #[trigger] g1[lin_index(size, x, y, dx, dy, t)] == ' '
    &&& forall|i: int|
        0 <= i < g1.len() && (#[trigger] g2[i]) != g1[i] ==> exists|t: int|
            0 <= t < word.len() && i == lin_index(size, x, y, dx, dy, t)
}

/// A placement for each word of `words`: each space-free word is spelled on
/// the grid at its entry of `ps` (a start cell and a direction step).
pub open spec fn embedding_spells(
    grid: Seq<char>,
    size: int,
    words: Seq<Seq<char>>,
    ps: Seq<(int, int, int, int)>,
) -> bool {
    &&& ps.len() == words.len()
    &&& forall|k: int|
        0 <= k < words.len() && !(#[trigger] words[k]).contains(' ') ==> is_dir_delta(
            ps[k].2,
            ps[k].3,
        ) && spelled_at(grid, size, ps[k].0, ps[k].1, ps[k].2, ps[k].3, words[k])
}

/// The runs of two distinct space-free words of `words` share no cell, so the
/// sum of their lengths cannot exceed the number of cells.
pub open spec fn embedding_disjoint(
    size: int,
    words: Seq<Seq<char>>,
    ps: Seq<(int, int, int, int)>,
) -> bool {
    forall|k1: int, k2: int, t1: int, t2: int|
        0 <= k1 < words.len() && 0 <= k2 < words.len() && k1 != k2 && !words[k1].contains(' ')
            && !words[k2].contains(' ') && 0 <= t1 < words[k1].len() && 0 <= t2 < words[k2].len()
            ==> #[trigger] lin_index(size, ps[k1].0, ps[k1].1, ps[k1].2, ps[k1].3, t1)
            != #[trigger] lin_index(size, ps[k2].0, ps[k2].1, ps[k2].2, ps[k2].3, t2)
}

/// The run of `q` spelling `w` shares no cell with the run of any space-free
/// word of `words`, provided `w` itself is space-free.
pub open spec fn run_disjoint(
    size: int,
    words: Seq<Seq<char>>,
    ps: Seq<(int, int, int, int)>,
    q: (int, int, int, int),
    w: Seq<char>,
) -> bool {
    forall|k: int, t1: int, t2: int|
        0 <= k < words.len() && !words[k].contains(' ') && !w.contains(' ') && 0 <= t1
            < words[k].len() && 0 <= t2 < w.len() ==> #[trigger] lin_index(
            size,
            ps[k].0,
            ps[k].1,
            ps[k].2,
            ps[k].3,
            t1,
        ) != #[trigger] lin_index(size, q.0, q.1, q.2, q.3, t2)
}

/// The lengths of the space-free words of `words`, summed.
pub open spec fn sum_word_lens(words: Seq<Seq<char>>) -> int
    decreases words.len(),
{
    if words.len() == 0 {
        0
    } else {
        sum_word_lens(words.drop_last()) + (if words.last().contains(' ') {
            0int
        } else {
            words.last().len() as int
        })
    }
}

/// The first `len` cells of the run starting at `q`.
spec fn cells_of(size: int, q: (int, int, int, int), len: int) -> Set<int>
    decreases len,
{
    if len <= 0 {
        Set::empty()
    } else {
        cells_of(size, q, len - 1).insert(lin_index(size, q.0, q.1, q.2, q.3, len - 1))
    }
}

/// The cells of the runs of the space-free words.
spec fn covered_cells(size: int, words: Seq<Seq<char>>, ps: Seq<(int, int, int, int)>) -> Set<int>
    decreases words.len(),
{
    if words.len() == 0 {
        Set::empty()
    } else {
        covered_cells(size, words.drop_last(), ps.drop_last()).union(
            if words.last().contains(' ') {
                Set::empty()
            } else {
                cells_of(size, ps.last(), words.last().len() as int)
            },
        )
    }
}

/// An upper- or lowercase letter.
pub open spec fn is_letter(c: char) -> bool {
    ('A' <= c && c <= 'Z') || ('a' <= c && c <= 'z')
}

/// Law: total coverage. A grid whose cells are each either a random filler
/// letter or a character of some placed word is made of letters only,
/// provided every placed word consists of letters.
pub proof fn lemma_total_coverage(grid: Seq<char>, ws: Seq<Seq<char>>)
    requires
        forall|i: int|
            0 <= i < grid.len() ==> ('A' <= (#[trigger] grid[i]) && grid[i] <= 'Z')
                || from_some_word(grid[i], ws),
        forall|k: int, t: int|
            0 <= k < ws.len() && 0 <= t < (#[trigger] ws[k]).len() ==> is_letter(#[trigger] ws[k][t]),
    ensures
        forall|i: int| 0 <= i < grid.len() ==> is_letter(#[trigger] grid[i]),
{
    assert forall|i: int| 0 <= i < grid.len() implies is_letter(#[trigger] grid[i]) by {
        if !('A' <= grid[i] && grid[i] <= 'Z') {
            let k = choose|k: int| 0 <= k < ws.len() && (#[trigger] ws[k]).contains(grid[i]);
            let t = choose|t: int| 0 <= t < ws[k].len() && ws[k][t] == grid[i];
            assert(is_letter(ws[k][t]));
        }
    }
}

proof fn lemma_mul_unit(t: int, d: int)
    by (nonlinear_arith)
    requires
        -1 <= d <= 1,
    ensures
        d == 1 ==> t * d == t,
        d == -1 ==> t * d == -t,
        d == 0 ==> t * d == 0,
{
}

proof fn lemma_cell_index_bounds(size: int, cx: int, cy: int)
    by (nonlinear_arith)
    requires
        1 <= size,
        0 <= cx < size,
        0 <= cy < size,
    ensures
        0 <= cx + cy * size < size * size,
{
}

proof fn lemma_lin_coords_unique(size: int, x1: int, y1: int, x2: int, y2: int)
    by (nonlinear_arith)
    requires
        1 <= size,
        0 <= x1 < size,
        0 <= x2 < size,
        0 <= y1 < size,
        0 <= y2 < size,
        x1 + y1 * size == x2 + y2 * size,
    ensures
        x1 == x2,
        y1 == y2,
{
}

proof fn lemma_path_distinct(size: int, x: int, y: int, dx: int, dy: int, t1: int, t2: int)
    requires
        1 <= size,
        is_dir_delta(dx, dy),
        cell_in_bounds(size, x, y, dx, dy, t1),
        cell_in_bounds(size, x, y, dx, dy, t2),
        lin_index(size, x, y, dx, dy, t1) == lin_index(size, x, y, dx, dy, t2),
    ensures
        t1 == t2,
{
    lemma_lin_coords_unique(size, x + t1 * dx, y + t1 * dy, x + t2 * dx, y + t2 * dy);
    lemma_mul_unit(t1, dx);
    lemma_mul_unit(t2, dx);
    lemma_mul_unit(t1, dy);
    lemma_mul_unit(t2, dy);
}

proof fn lemma_cells_of_props(size: int, q: (int, int, int, int), len: int)
    requires
        1 <= size,
        is_dir_delta(q.2, q.3),
        forall|t: int| 0 <= t < len ==> #[trigger] cell_in_bounds(size, q.0, q.1, q.2, q.3, t),
    ensures
        cells_of(size, q, len).finite(),
        cells_of(size, q, len).len() == (if len <= 0 {
            0int
        } else {
            len
        }),
        forall|i: int| #[trigger] cells_of(size, q, len).contains(i) <==> exists|t: int|
            0 <= t < len && i == lin_index(size, q.0, q.1, q.2, q.3, t),
        forall|i: int| #[trigger] cells_of(size, q, len).contains(i) ==> 0 <= i < size * size,
    decreases len,
{
    broadcast use vstd::set::group_set_axioms;

    if len <= 0 {
    } else {
        lemma_cells_of_props(size, q, len - 1);
        let last = lin_index(size, q.0, q.1, q.2, q.3, len - 1);
        assert(cell_in_bounds(size, q.0, q.1, q.2, q.3, len - 1));
        lemma_cell_index_bounds(size, q.0 + (len - 1) * q.2, q.1 + (len - 1) * q.3);
        assert(!cells_of(size, q, len - 1).contains(last)) by {
            if cells_of(size, q, len - 1).contains(last) {
                let t = choose|t: int|
                    0 <= t < len - 1 && last == lin_index(size, q.0, q.1, q.2, q.3, t);
                lemma_path_distinct(size, q.0, q.1, q.2, q.3, t, len - 1);
            }
        }
    }
}

proof fn lemma_len_union_disjoint(s1: Set<int>, s2: Set<int>)
    requires
        s1.finite(),
        s2.finite(),
        s1.intersect(s2) == Set::<int>::empty(),
    ensures
        s1.union(s2).finite(),
        s1.union(s2).len() == s1.len() + s2.len(),
    decreases s1.len(),
{
    broadcast use vstd::set::group_set_axioms;

    if s1.len() == 0 {
        s1.lemma_len0_is_empty();
        assert(s1.union(s2) =~= s2);
    } else {
        if !(exists|x: int| s1.contains(x)) {
            assert(s1 =~= Set::<int>::empty());
        }
        let a = s1.choose();
        assert(s1.contains(a));
        assert(!s2.contains(a)) by {
            if s2.contains(a) {
                assert(s1.intersect(s2).contains(a));
            }
        }
        assert(s1.remove(a).intersect(s2) =~= Set::<int>::empty());
        lemma_len_union_disjoint(s1.remove(a), s2);
        assert(s1.union(s2) =~= s1.remove(a).union(s2).insert(a));
        assert(!s1.remove(a).union(s2).contains(a));
    }
}

proof fn lemma_covered_cells_props(
    grid: Seq<char>,
    size: int,
    words: Seq<Seq<char>>,
    ps: Seq<(int, int, int, int)>,
)
    requires
        1 <= size,
        embedding_spells(grid, size, words, ps),
        embedding_disjoint(size, words, ps),
    ensures
        covered_cells(size, words, ps).finite(),
        covered_cells(size, words, ps).len() == sum_word_lens(words),
        forall|i: int| #[trigger] covered_cells(size, words, ps).contains(i) ==> exists|k: int, t: int|
            0 <= k < words.len() && !words[k].contains(' ') && 0 <= t < words[k].len() && i
                == lin_index(size, ps[k].0, ps[k].1, ps[k].2, ps[k].3, t),
        forall|i: int| #[trigger] covered_cells(size, words, ps).contains(i) ==> 0 <= i < size
            * size,
    decreases words.len(),
{
    broadcast use vstd::set::group_set_axioms;

    if words.len() == 0 {
    } else {
        let words0 = words.drop_last();
        let ps0 = ps.drop_last();
        let n = words.len() - 1;
        assert(embedding_spells(grid, size, words0, ps0));
        assert(embedding_disjoint(size, words0, ps0));
        lemma_covered_cells_props(grid, size, words0, ps0);
        let prefix = covered_cells(size, words0, ps0);
        if words.last().contains(' ') {
            assert(covered_cells(size, words, ps) =~= prefix);
        } else {
            let w = words.last();
            let q = ps.last();
            assert(spelled_at(grid, size, q.0, q.1, q.2, q.3, w));
            lemma_cells_of_props(size, q, w.len() as int);
            let run = cells_of(size, q, w.len() as int);
            assert(prefix.intersect(run) =~= Set::<int>::empty()) by {
                assert forall|i: int| !(#[trigger] prefix.intersect(run).contains(i)) by {
                    if prefix.contains(i) && run.contains(i) {
                        let (k, t1) = choose|k: int, t1: int|
                            0 <= k < words0.len() && !words0[k].contains(' ') && 0 <= t1
                                < words0[k].len() && i == lin_index(
                                size,
                                ps0[k].0,
                                ps0[k].1,
                                ps0[k].2,
                                ps0[k].3,
                                t1,
                            );
                        let t2 = choose|t2: int|
                            0 <= t2 < w.len() && i == lin_index(size, q.0, q.1, q.2, q.3, t2);
                        assert(words0[k] == words[k]);
                        assert(ps0[k] == ps[k]);
                        assert(lin_index(size, ps[k].0, ps[k].1, ps[k].2, ps[k].3, t1)
                            == lin_index(size, ps[n as int].0, ps[n as int].1, ps[n as int].2, ps[
                            n as int].3, t2));
                    }
                }
            }
            lemma_len_union_disjoint(prefix, run);
            assert(covered_cells(size, words, ps) == prefix.union(run));
        }
    }
}

/// Law: the runs of the placed space-free words are pairwise disjoint, so
/// their lengths sum to at most the number of grid cells.
pub proof fn lemma_embedding_area(
    grid: Seq<char>,
    size: int,
    words: Seq<Seq<char>>,
    ps: Seq<(int, int, int, int)>,
)
    requires
        1 <= size,
        embedding_spells(grid, size, words, ps),
        embedding_disjoint(size, words, ps),
    ensures
        sum_word_lens(words) <= size * size,
{
    broadcast use vstd::set::group_set_axioms;

    lemma_covered_cells_props(grid, size, words, ps);
    let covered = covered_cells(size, words, ps);
    vstd::set_lib::lemma_int_range(0, size * size);
    assert(covered.subset_of(vstd::set_lib::set_int_range(0, size * size)));
    vstd::set_lib::lemma_len_subset(covered, vstd::set_lib::set_int_range(0, size * size));
}

/// A mutation that only overwrote empty-marker cells keeps a space-free word
/// readable at the same start and direction.
proof fn lemma_spelled_preserved(
    g1: Seq<char>,
    g2: Seq<char>,
    size: int,
    x: int,
    y: int,
    dx: int,
    dy: int,
    w: Seq<char>,
)
    requires
        1 <= size,
        g1.len() == size * size,
        g1.len() == g2.len(),
        forall|i: int| 0 <= i < g2.len() && (#[trigger] g2[i]) != g1[i] ==> g1[i] == ' ',
        spelled_at(g1, size, x, y, dx, dy, w),
        !w.contains(' '),
    ensures
        spelled_at(g2, size, x, y, dx, dy, w),
{
    assert forall|t: int| 0 <= t < w.len() implies #[trigger] g2[lin_index(
        size,
        x,
        y,
        dx,
        dy,
        t,
    )] == w[t] by {
        assert(cell_in_bounds(size, x, y, dx, dy, t));
        lemma_cell_index_bounds(size, x + t * dx, y + t * dy);
        assert(g1[lin_index(size, x, y, dx, dy, t)] == w[t]);
        if w[t] == ' ' {
            assert(w.contains(' '));
        }
    }
}

/// Law: a placement that only overwrote empty-marker cells keeps every
/// space-free word of `ws` readable where it was.
pub proof fn lemma_presence_preserved(g1: Seq<char>, g2: Seq<char>, size: int, ws: Seq<Seq<char>>)
    requires
        1 <= size,
        g1.len() == size * size,
        g1.len() == g2.len(),
        forall|i: int| 0 <= i < g2.len() && (#[trigger] g2[i]) != g1[i] ==> g1[i] == ' ',
        placed_words_present(g1, size, ws),
    ensures
        placed_words_present(g2, size, ws),
{
    assert forall|k: int|
        0 <= k < ws.len() && !(#[trigger] ws[k]).contains(' ') implies word_present(
        g2,
        size,
        ws[k],
    ) by {
        let w = ws[k];
        let (x, y, dx, dy) = choose|x: int, y: int, dx: int, dy: int|
            is_dir_delta(dx, dy) && #[trigger] spelled_at(g1, size, x, y, dx, dy, w);
        lemma_spelled_preserved(g1, g2, size, x, y, dx, dy, w);
        assert(spelled_at(g2, size, x, y, dx, dy, w));
    }
}

/// Relies on SliceRandom::choose: Some uniformly chosen element of a
/// non-empty slice, None exactly when the slice is empty.
#[verifier::external_body]
fn choose_direction(rng: &mut rand::rngs::ThreadRng, dirs: &Vec<WordDirection>) -> (r: Option<
    WordDirection,
>)
    ensures
        r is Some <==> dirs@.len() > 0,
        r matches Some(d) ==> exists|i: int| 0 <= i < dirs@.len() && dirs@[i] == d,
{
    dirs.choose(rng).copied()
}

/// Draws one of the eight directions at random.
fn get_random_worddirection(rng: &mut rand::rngs::ThreadRng) -> WordDirection {
    let dirs = vec![
        WordDirection::North,
        WordDirection::NorthEast,
        WordDirection::East,
        WordDirection::SouthEast,
        WordDirection::South,
        WordDirection::SouthWest,
        WordDirection::West,
        WordDirection::NorthWest,
    ];
    match choose_direction(rng, &dirs) {
        Some(d) => d,
        None => WordDirection::North,
    }
}

/// The cell reached from (x, y) after t steps in `direction`, as concrete
/// column and row numbers.
fn coord_at(grid_size: usize, x: usize, y: usize, direction: WordDirection, t: usize) -> (c: (
    usize,
    usize,
))
    requires
        cell_in_bounds(
            grid_size as int,
            x as int,
            y as int,
            dir_dx(direction),
            dir_dy(direction),
            t as int,
        ),
    ensures
        c.0 as int == x + t * dir_dx(direction),
        c.1 as int == y + t * dir_dy(direction),
        c.0 < grid_size,
        c.1 < grid_size,
{
    proof {
        lemma_mul_unit(t as int, dir_dx(direction));
        lemma_mul_unit(t as int, dir_dy(direction));
    }
    match direction {
        WordDirection::North => (x, y - t),
        WordDirection::NorthEast => (x + t, y - t),
        WordDirection::East => (x + t, y),
        WordDirection::SouthEast => (x + t, y + t),
        WordDirection::South => (x, y + t),
        WordDirection::SouthWest => (x - t, y + t),
        WordDirection::West => (x - t, y),
        WordDirection::NorthWest => (x - t, y - t),
    }
}

/// Attempts to place `word` once: a random direction, a random start cell
/// whose whole run stays on the grid, a collision check along the run, and
/// the write. On failure the grid is untouched; on success the word can be
/// read off the new grid and only empty-marker cells were overwritten.
pub fn place_word(
    rng: &mut rand::rngs::ThreadRng,
    grid: &mut Vec<char>,
    grid_size: usize,
    word: &str,
) -> (placed: bool)
    requires
        1 <= grid_size,
        grid_size * grid_size <= usize::MAX,
        old(grid)@.len() == grid_size * grid_size,
        1 <= word@.len() <= grid_size,
    ensures
        final(grid)@.len() == old(grid)@.len(),
        !placed ==> final(grid)@ == old(grid)@,
        placed ==> word_present(final(grid)@, grid_size as int, word@),
        placed ==> exists|x: int, y: int, dx: int, dy: int|
            #[trigger] placed_run(
                old(grid)@,
                final(grid)@,
                grid_size as int,
                x,
                y,
                dx,
                dy,
                word@,
            ),
        (forall|i: int| 0 <= i < old(grid)@.len() ==> (#[trigger] old(grid)@[i]) == ' ')
            ==> placed,
        forall|i: int|
            0 <= i < old(grid)@.len() && (#[trigger] final(grid)@[i]) != old(grid)@[i] ==> old(
                grid,
            )@[i] == ' ' && word@.contains(final(grid)@[i]),
{
    let ghost size = grid_size as int;
    let direction = get_random_worddirection(rng);
    let len = word.unicode_len();
    let ghost dx = dir_dx(direction);
    let ghost dy = dir_dy(direction);

    // valid start columns for this direction, last valid start included
    let (x_min, x_max) = match direction {
        WordDirection::North | WordDirection::South => (0, grid_size),
        WordDirection::NorthEast | WordDirection::East | WordDirection::SouthEast => (
            0,
            grid_size - len + 1,
        ),
        WordDirection::SouthWest | WordDirection::West | WordDirection::NorthWest => (
            len - 1,
            grid_size,
        ),
    };
    // valid start rows for this direction, last valid start included
    let (y_min, y_max) = match direction {
        WordDirection::North | WordDirection::NorthEast | WordDirection::NorthWest => (
            len - 1,
            grid_size,
        ),
        WordDirection::SouthEast | WordDirection::South | WordDirection::SouthWest => (
            0,
            grid_size - len + 1,
        ),
        WordDirection::East | WordDirection::West => (0, grid_size),
    };
    if x_min >= x_max || y_min >= y_max {
        // no start cell keeps the word on the grid in this direction
        return false;
    }
    let x = gen_range_usize(rng, x_min, x_max);
    let y = gen_range_usize(rng, y_min, y_max);

    proof {
        assert forall|t: int| 0 <= t < word@.len() implies #[trigger] cell_in_bounds(
            size,
            x as int,
            y as int,
            dx,
            dy,
            t,
        ) by {
            lemma_mul_unit(t, dx);
            lemma_mul_unit(t, dy);
        }
    }

    // collision check along the run
    let mut t: usize = 0;
    while t < len
        invariant
            1 <= grid_size,
            grid_size * grid_size <= usize::MAX,
            grid@.len() == grid_size * grid_size,
            size == grid_size as int,
            dx == dir_dx(direction),
            dy == dir_dy(direction),
            len == word@.len(),
            t <= len,
            path_in_bounds(size, x as int, y as int, dx, dy, len as int),
            grid@ == old(grid)@,
            forall|s: int|
                0 <= s < t ==> #[trigger] grid@[lin_index(size, x as int, y as int, dx, dy, s)]
                    == ' ',
        decreases len - t,
    {
        assert(cell_in_bounds(size, x as int, y as int, dx, dy, t as int));
        let (cx, cy) = coord_at(grid_size, x, y, direction, t);
        proof {
            lemma_cell_index_bounds(size, cx as int, cy as int);
        }
        let idx = cx + cy * grid_size;
        if grid[idx] != ' ' {
            return false;
        }
        t = t + 1;
    }

    // the run is clear: write the word
    let ghost g0 = grid@;
    let mut t: usize = 0;
    while t < len
        invariant
            1 <= grid_size,
            grid_size * grid_size <= usize::MAX,
            grid@.len() == grid_size * grid_size,
            g0.len() == grid@.len(),
            size == grid_size as int,
            dx == dir_dx(direction),
            dy == dir_dy(direction),
            len == word@.len(),
            t <= len,
            is_dir_delta(dx, dy),
            path_in_bounds(size, x as int, y as int, dx, dy, len as int),
            forall|s: int|
                0 <= s < len ==> #[trigger] g0[lin_index(size, x as int, y as int, dx, dy, s)]
                    == ' ',
            forall|s: int|
                0 <= s < t ==> #[trigger] grid@[lin_index(size, x as int, y as int, dx, dy, s)]
                    == word@[s],
            forall|i: int|
                0 <= i < grid@.len() && (#[trigger] grid@[i]) != g0[i] ==> exists|s: int|
                    0 <= s < t && i == lin_index(size, x as int, y as int, dx, dy, s),
        decreases len - t,
    {
        assert(cell_in_bounds(size, x as int, y as int, dx, dy, t as int));
        let (cx, cy) = coord_at(grid_size, x, y, direction, t);
        proof {
            lemma_cell_index_bounds(size, cx as int, cy as int);
        }
        let idx = cx + cy * grid_size;
        let c = word.get_char(t);
        let ghost gprev = grid@;
        grid[idx] = c;
        proof {
            assert(idx as int == lin_index(size, x as int, y as int, dx, dy, t as int));
            assert forall|s: int| 0 <= s < t + 1 implies #[trigger] grid@[lin_index(
                size,
                x as int,
                y as int,
                dx,
                dy,
                s,
            )] == word@[s] by {
                if s < t {
                    if lin_index(size, x as int, y as int, dx, dy, s) == idx as int {
                        lemma_path_distinct(size, x as int, y as int, dx, dy, s, t as int);
                    }
                    assert(cell_in_bounds(size, x as int, y as int, dx, dy, s));
                    lemma_cell_index_bounds(size, x as int + s * dx, y as int + s * dy);
                }
            }
            assert forall|i: int|
                0 <= i < grid@.len() && (#[trigger] grid@[i]) != g0[i] implies exists|s: int|
                0 <= s < t + 1 && i == lin_index(size, x as int, y as int, dx, dy, s) by {
                if i == idx as int {
                    assert(i == lin_index(size, x as int, y as int, dx, dy, t as int));
                } else {
                    assert(grid@[i] == gprev[i]);
                }
            }
        }
        t = t + 1;
    }

    proof {
        assert(spelled_at(grid@, size, x as int, y as int, dx, dy, word@));
        assert(word_present(grid@, size, word@));
        assert(placed_run(g0, grid@, size, x as int, y as int, dx, dy, word@));
        assert forall|i: int|
            0 <= i < g0.len() && (#[trigger] grid@[i]) != g0[i] implies g0[i] == ' '
            && word@.contains(grid@[i]) by {
            let s = choose|s: int|
                0 <= s < len && i == lin_index(size, x as int, y as int, dx, dy, s);
            assert(g0[lin_index(size, x as int, y as int, dx, dy, s)] == ' ');
            assert(grid@[lin_index(size, x as int, y as int, dx, dy, s)] == word@[s]);
        }
    }
    true
}

proof fn lemma_prefix_multiset_le(s: Seq<Seq<char>>, i: int, w: Seq<char>)
    requires
        0 <= i <= s.len(),
    ensures
        s.subrange(0, i).to_multiset().count(w) <= s.to_multiset().count(w),
    decreases s.len() - i,
{
    broadcast use vstd::seq_lib::group_to_multiset_ensures;
    broadcast use vstd::multiset::group_multiset_properties;

    if i == s.len() {
        assert(s.subrange(0, i) =~= s);
    } else {
        lemma_prefix_multiset_le(s, i + 1, w);
        assert(s.subrange(0, i + 1) =~= s.subrange(0, i).push(s[i]));
    }
}

proof fn lemma_double_le_square(g: int)
    by (nonlinear_arith)
    requires
        2 <= g,
    ensures
        2 * g <= g * g,
{
}

/// Builds a puzzle from a raw word resource: filter the words to the grid
/// size, shuffle them, place each in turn with up to five retries until the
/// quota of `grid_size * 2` words is reached, then fill every cell still
/// empty with a random letter.
pub fn build_grid(text: &str, grid_size: usize) -> (result: WordGrid)
    requires
        1 <= grid_size,
        grid_size * grid_size <= usize::MAX,
    ensures
        result.grid@.len() == grid_size * grid_size,
        result.words@.len() <= 2 * grid_size,
        forall|k: int|
            0 <= k < result.words@.len() ==> filtered_words(text@, grid_size as nat).contains(
                (#[trigger] result.words@[k])@,
            ),
        forall|w: Seq<char>|
            #[trigger] views_of(result.words@).to_multiset().count(w) <= filtered_words(
                text@,
                grid_size as nat,
            ).to_multiset().count(w),
        forall|k: int| 0 <= k < result.words@.len() ==> 3 <= (#[trigger] result.words@[k])@.len()
            <= grid_size,
        forall|i: int| 0 <= i < result.grid@.len() ==> (#[trigger] result.grid@[i]) != ' ',
        forall|i: int|
            0 <= i < result.grid@.len() ==> ('A' <= (#[trigger] result.grid@[i])
                && result.grid@[i] <= 'Z') || from_some_word(result.grid@[i], views_of(
                result.words@,
            )),
        forall|k: int|
            0 <= k < result.words@.len() && !((#[trigger] result.words@[k])@.contains(' '))
                ==> word_present(result.grid@, grid_size as int, result.words@[k]@),
        filtered_words(text@, grid_size as nat).len() > 0 ==> result.words@.len() >= 1,
        exists|ps: Seq<(int, int, int, int)>|
            #[trigger] embedding_spells(result.grid@, grid_size as int, views_of(result.words@), ps)
                && embedding_disjoint(grid_size as int, views_of(result.words@), ps),
        sum_word_lens(views_of(result.words@)) <= grid_size * grid_size,
{
    broadcast use vstd::seq_lib::group_to_multiset_ensures;

    let ghost size = grid_size as int;
    let ghost filtered = filtered_words(text@, grid_size as nat);
    let mut rng = new_rng();

    // the empty grid
    let total = grid_size * grid_size;
    let mut grid: Vec<char> = Vec::new();
    let mut i: usize = 0;
    while i < total
        invariant
            i <= total,
            grid@.len() == i,
            forall|j: int| 0 <= j < i ==> (#[trigger] grid@[j]) == ' ',
        decreases total - i,
    {
        grid.push(' ');
        i = i + 1;
    }

    // candidate words, shuffled
    let mut words = get_words(text, grid_size);
    proof {
        lemma_filtered_word_lengths(text@, grid_size as nat);
    }
    shuffle_words(&mut rng, &mut words);
    proof {
        assert forall|j: int| 0 <= j < words@.len() implies filtered.contains(
            (#[trigger] words@[j])@,
        ) && 3 <= words@[j]@.len() <= grid_size by {
            assert(views_of(words@)[j] == words@[j]@);
            assert(views_of(words@).contains(words@[j]@));
            assert(views_of(words@).to_multiset().count(words@[j]@) > 0);
            assert(filtered.to_multiset().count(words@[j]@) > 0);
            assert(filtered.contains(words@[j]@));
            let fi = choose|fi: int| 0 <= fi < filtered.len() && filtered[fi] == words@[j]@;
            assert(3 <= filtered[fi].len() <= grid_size as nat);
        }
    }

    proof {
        if grid_size >= 2 {
            lemma_double_le_square(size);
        }
    }
    let max_words = grid_size * 2;

    let mut selected_words: Vec<String> = Vec::new();
    let ghost mut ps: Seq<(int, int, int, int)> = Seq::empty();
    proof {
        assert(words@.len() == filtered.len());
    }

    // try to fill the grid, stopping at the word quota
    let mut wi: usize = 0;
    while wi < words.len() && selected_words.len() < max_words
        invariant
            1 <= grid_size,
            grid_size * grid_size <= usize::MAX,
            size == grid_size as int,
            filtered == filtered_words(text@, grid_size as nat),
            max_words == grid_size * 2,
            grid@.len() == grid_size * grid_size,
            wi <= words@.len(),
            forall|j: int|
                0 <= j < words@.len() ==> filtered.contains((#[trigger] words@[j])@) && 3 <= words@[j]@.len() <= grid_size,
            selected_words@.len() <= max_words,
            wi > 0 ==> selected_words@.len() >= 1,
            forall|k: int|
                0 <= k < selected_words@.len() ==> filtered.contains(
                    (#[trigger] selected_words@[k])@,
                ),
            forall|w: Seq<char>|
                #[trigger] views_of(selected_words@).to_multiset().count(w) <= views_of(
                    words@,
                ).subrange(0, wi as int).to_multiset().count(w),
            grid_cells_ok(grid@, views_of(selected_words@)),
            embedding_spells(grid@, size, views_of(selected_words@), ps),
            embedding_disjoint(size, views_of(selected_words@), ps),
        decreases words@.len() - wi,
    {
        let ghost sel_head = selected_words@;
        let word: &String = &words[wi];

        let ghost gentry = grid@;
        let ghost mut place_w: (int, int, int, int) = (0int, 0int, 0int, 0int);
        proof {
            if selected_words@.len() == 0 {
                assert forall|i: int| 0 <= i < gentry.len() implies #[trigger] gentry[i] == ' ' by {
                    assert(!from_some_word(gentry[i], views_of(selected_words@)));
                }
            }
        }
        let mut attempts: usize = 0;
        let mut placed = false;
        while attempts < 6 && !placed
            invariant
                1 <= grid_size,
                grid_size * grid_size <= usize::MAX,
                size == grid_size as int,
                grid@.len() == grid_size * grid_size,
                gentry.len() == grid_size * grid_size,
                attempts <= 6,
                1 <= word@.len() <= grid_size,
                !placed ==> grid@ == gentry,
                selected_words@.len() == 0 ==> forall|i: int|
                    0 <= i < gentry.len() ==> #[trigger] gentry[i] == ' ',
                attempts > 0 ==> selected_words@.len() >= 1,
                embedding_spells(grid@, size, views_of(selected_words@), ps),
                embedding_disjoint(size, views_of(selected_words@), ps),
                !placed ==> grid_cells_ok(grid@, views_of(selected_words@)),
                placed ==> grid_cells_ok(grid@, views_of(selected_words@).push(word@)),
                placed ==> is_dir_delta(place_w.2, place_w.3) && spelled_at(
                    grid@,
                    size,
                    place_w.0,
                    place_w.1,
                    place_w.2,
                    place_w.3,
                    word@,
                ) && run_disjoint(size, views_of(selected_words@), ps, place_w, word@),
            decreases 6 - attempts + (if placed { 0int } else { 1int }),
        {
            let ghost gbefore = grid@;
            if place_word(&mut rng, &mut grid, grid_size, word.as_str()) {
                placed = true;
                proof {
                    let wviews = views_of(selected_words@);
                    place_w = choose|x: int, y: int, dx: int, dy: int|
                        #[trigger] placed_run(gbefore, grid@, size, x, y, dx, dy, word@);
                    assert(placed_run(
                        gbefore,
                        grid@,
                        size,
                        place_w.0,
                        place_w.1,
                        place_w.2,
                        place_w.3,
                        word@,
                    ));
                    // prior runs stay readable: the new run wrote only empty-marker cells
                    assert forall|k: int|
                        0 <= k < wviews.len() && !(#[trigger] wviews[k]).contains(
                        ' ',
                    ) implies is_dir_delta(ps[k].2, ps[k].3) && spelled_at(
                        grid@,
                        size,
                        ps[k].0,
                        ps[k].1,
                        ps[k].2,
                        ps[k].3,
                        wviews[k],
                    ) by {
                        lemma_spelled_preserved(
                            gbefore,
                            grid@,
                            size,
                            ps[k].0,
                            ps[k].1,
                            ps[k].2,
                            ps[k].3,
                            wviews[k],
                        );
                    }
                    assert(embedding_spells(grid@, size, wviews, ps));
                    // the new run held only empty markers, a prior space-free run none
                    assert forall|k: int, t1: int, t2: int|
                        0 <= k < wviews.len() && !wviews[k].contains(' ') && !word@.contains(' ')
                            && 0 <= t1 < wviews[k].len() && 0 <= t2
                            < word@.len() implies #[trigger] lin_index(
                        size,
                        ps[k].0,
                        ps[k].1,
                        ps[k].2,
                        ps[k].3,
                        t1,
                    ) != #[trigger] lin_index(
                        size,
                        place_w.0,
                        place_w.1,
                        place_w.2,
                        place_w.3,
                        t2,
                    ) by {
                        assert(spelled_at(
                            gbefore,
                            size,
                            ps[k].0,
                            ps[k].1,
                            ps[k].2,
                            ps[k].3,
                            wviews[k],
                        ));
                        assert(cell_in_bounds(size, ps[k].0, ps[k].1, ps[k].2, ps[k].3, t1));
                        lemma_cell_index_bounds(
                            size,
                            ps[k].0 + t1 * ps[k].2,
                            ps[k].1 + t1 * ps[k].3,
                        );
                        assert(gbefore[lin_index(size, ps[k].0, ps[k].1, ps[k].2, ps[k].3, t1)]
                            == wviews[k][t1]);
                        if wviews[k][t1] == ' ' {
                            assert(wviews[k].contains(' '));
                        }
                        assert(cell_in_bounds(
                            size,
                            place_w.0,
                            place_w.1,
                            place_w.2,
                            place_w.3,
                            t2,
                        ));
                        lemma_cell_index_bounds(
                            size,
                            place_w.0 + t2 * place_w.2,
                            place_w.1 + t2 * place_w.3,
                        );
                        assert(gbefore[lin_index(
                            size,
                            place_w.0,
                            place_w.1,
                            place_w.2,
                            place_w.3,
                            t2,
                        )] == ' ');
                    }
                    assert(run_disjoint(size, wviews, ps, place_w, word@));
                    assert forall|i: int| 0 <= i < grid@.len() implies (#[trigger] grid@[i]) == ' '
                        || from_some_word(grid@[i], wviews.push(word@)) by {
                        if grid@[i] != gbefore[i] {
                            assert(word@.contains(grid@[i]));
                            assert(wviews.push(word@)[wviews.len() as int] == word@);
                            assert(from_some_word(grid@[i], wviews.push(word@)));
                        } else {
                            if gbefore[i] != ' ' {
                                assert(from_some_word(gbefore[i], wviews));
                                let k = choose|k: int|
                                    0 <= k < wviews.len() && (#[trigger] wviews[k]).contains(
                                        gbefore[i],
                                    );
                                assert(wviews.push(word@)[k] == wviews[k]);
                                assert(from_some_word(grid@[i], wviews.push(word@)));
                            }
                        }
                    }
                }
            } else {
                attempts = attempts + 1;
                proof {
                    // a failure is only possible once some word occupies a cell
                    if selected_words@.len() == 0 {
                        assert forall|i: int|
                            0 <= i < gbefore.len() implies #[trigger] gbefore[i] == ' ' by {
                            assert(gentry[i] == ' ');
                        }
                        assert(false);
                    }
                }
            }
        }

        if placed {
            // save the word, with its placement
            let ghost before = selected_words@;
            let ghost ps_old = ps;
            selected_words.push(word.clone());
            proof {
                ps = ps.push(place_w);
                assert(views_of(selected_words@) =~= views_of(before).push(word@));
                let nviews = views_of(selected_words@);
                let n = views_of(before).len() as int;
                assert forall|k: int|
                    0 <= k < nviews.len() && !(#[trigger] nviews[k]).contains(
                    ' ',
                ) implies is_dir_delta(ps[k].2, ps[k].3) && spelled_at(
                    grid@,
                    size,
                    ps[k].0,
                    ps[k].1,
                    ps[k].2,
                    ps[k].3,
                    nviews[k],
                ) by {
                    if k < n {
                        assert(nviews[k] == views_of(before)[k]);
                        assert(ps[k] == ps_old[k]);
                    } else {
                        assert(nviews[k] == word@);
                        assert(ps[k] == place_w);
                    }
                }
                assert(embedding_spells(grid@, size, nviews, ps));
                assert forall|k1: int, k2: int, t1: int, t2: int|
                    0 <= k1 < nviews.len() && 0 <= k2 < nviews.len() && k1 != k2
                        && !nviews[k1].contains(' ') && !nviews[k2].contains(' ') && 0 <= t1
                        < nviews[k1].len() && 0 <= t2 < nviews[k2].len() implies #[trigger] lin_index(
                    size,
                    ps[k1].0,
                    ps[k1].1,
                    ps[k1].2,
                    ps[k1].3,
                    t1,
                ) != #[trigger] lin_index(size, ps[k2].0, ps[k2].1, ps[k2].2, ps[k2].3, t2) by {
                    if k1 < n && k2 < n {
                        assert(nviews[k1] == views_of(before)[k1]);
                        assert(nviews[k2] == views_of(before)[k2]);
                        assert(ps[k1] == ps_old[k1]);
                        assert(ps[k2] == ps_old[k2]);
                    } else if k1 < n {
                        assert(nviews[k1] == views_of(before)[k1]);
                        assert(nviews[k2] == word@);
                        assert(ps[k1] == ps_old[k1]);
                        assert(ps[k2] == place_w);
                    } else {
                        assert(nviews[k2] == views_of(before)[k2]);
                        assert(nviews[k1] == word@);
                        assert(ps[k2] == ps_old[k2]);
                        assert(ps[k1] == place_w);
                    }
                }
                assert(embedding_disjoint(size, nviews, ps));
            }
        }
        proof {
            broadcast use vstd::seq_lib::group_to_multiset_ensures;
            broadcast use vstd::multiset::group_multiset_properties;

            let vws = views_of(words@);
            assert(vws.subrange(0, wi as int + 1) =~= vws.subrange(0, wi as int).push(
                vws[wi as int],
            ));
            assert(vws[wi as int] == word@);
            assert forall|w: Seq<char>|
                #[trigger] views_of(selected_words@).to_multiset().count(w) <= vws.subrange(
                0,
                wi as int + 1,
            ).to_multiset().count(w) by {
                let prefix = vws.subrange(0, wi as int);
                assert(prefix.push(vws[wi as int]).to_multiset() =~= prefix.to_multiset().insert(
                    vws[wi as int],
                ));
                assert(views_of(sel_head).to_multiset().count(w) <= prefix.to_multiset().count(w));
                if placed {
                    assert(views_of(selected_words@) =~= views_of(sel_head).push(word@));
                    assert(views_of(sel_head).push(word@).to_multiset() =~= views_of(
                        sel_head,
                    ).to_multiset().insert(word@));
                }
            }
        }
        wi = wi + 1;
    }

    proof {
        assert forall|w: Seq<char>|
            #[trigger] views_of(selected_words@).to_multiset().count(w)
                <= filtered.to_multiset().count(w) by {
            lemma_prefix_multiset_le(views_of(words@), wi as int, w);
        }
        // a non-empty candidate list always yields at least one placed word:
        // on a still-blank grid no placement attempt can fail
        if filtered.len() > 0 {
            assert(wi == words@.len() || selected_words@.len() >= max_words);
            assert(selected_words@.len() >= 1);
        }
    }

    // fill the remaining places
    let ghost gwords = grid@;
    let ghost wviews = views_of(selected_words@);
    let mut idx: usize = 0;
    while idx < total
        invariant
            1 <= grid_size,
            total == grid_size * grid_size,
            size == grid_size as int,
            grid@.len() == total,
            gwords.len() == total,
            idx <= total,
            wviews == views_of(selected_words@),
            grid_cells_ok(gwords, wviews),
            embedding_spells(gwords, size, wviews, ps),
            embedding_disjoint(size, wviews, ps),
            forall|i: int| idx <= i < total ==> (#[trigger] grid@[i]) == gwords[i],
            forall|i: int| 0 <= i < grid@.len() && (#[trigger] grid@[i]) != gwords[i] ==> gwords[i]
                == ' ',
            forall|i: int| 0 <= i < idx ==> (#[trigger] grid@[i]) != ' ',
            forall|i: int|
                0 <= i < idx ==> ('A' <= (#[trigger] grid@[i]) && grid@[i] <= 'Z')
                    || from_some_word(grid@[i], wviews),
        decreases total - idx,
    {
        if grid[idx] == ' ' {
            let b = gen_range_u8(&mut rng, ASCII_A, ASCII_Z);
            grid[idx] = b as char;
        }
        idx = idx + 1;
    }
    proof {
        // the filler wrote only empty-marker cells, so every placement survives
        assert forall|k: int|
            0 <= k < wviews.len() && !(#[trigger] wviews[k]).contains(' ') implies is_dir_delta(
            ps[k].2,
            ps[k].3,
        ) && spelled_at(grid@, size, ps[k].0, ps[k].1, ps[k].2, ps[k].3, wviews[k]) by {
            lemma_spelled_preserved(
                gwords,
                grid@,
                size,
                ps[k].0,
                ps[k].1,
                ps[k].2,
                ps[k].3,
                wviews[k],
            );
        }
        assert(embedding_spells(grid@, size, views_of(selected_words@), ps));
        assert(embedding_disjoint(size, views_of(selected_words@), ps));
        assert forall|k: int|
            0 <= k < selected_words@.len() && !((#[trigger] selected_words@[k])@.contains(
                ' ',
            )) implies word_present(grid@, size, selected_words@[k]@) by {
            assert(wviews[k] == selected_words@[k]@);
            assert(spelled_at(grid@, size, ps[k].0, ps[k].1, ps[k].2, ps[k].3, wviews[k]));
        }
    }

    let result = WordGrid { grid, words: selected_words };
    proof {
        assert(embedding_spells(result.grid@, grid_size as int, views_of(result.words@), ps));
        assert(embedding_disjoint(grid_size as int, views_of(result.words@), ps));
        lemma_embedding_area(result.grid@, grid_size as int, views_of(result.words@), ps);
    }
    result
}

} // verus!
