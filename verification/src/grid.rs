use vstd::prelude::*;
use vstd::set_lib::{lemma_int_range, lemma_len_subset, set_int_range};
use vstd::arithmetic::div_mod::lemma_fundamental_div_mod_converse;

verus! {

/// A cell of the board: column, then row.
pub type Cell = (i32, i32);

/// The cell lies on a board `w` columns wide and `h` rows high.
pub open spec fn on_board(w: int, h: int, c: Cell) -> bool {
    0 <= c.0 < w && 0 <= c.1 < h
}

/// Row-major position of a cell on a board `w` columns wide.
pub open spec fn cell_index(w: int, c: Cell) -> int {
    c.1 * w + c.0
}

/// The cell at a row-major position on a board `w` columns wide.
pub open spec fn index_cell(w: int, k: int) -> Cell {
    ((k % w) as i32, (k / w) as i32)
}

/// Board dimensions that coordinates and observations can hold.
pub open spec fn board_fits(w: int, h: int) -> bool {
    &&& 1 <= w <= i32::MAX
    &&& 1 <= h <= i32::MAX
    &&& w * h + 4 <= usize::MAX
}

/// A cell on the board has a position below `w * h`, and that position leads
/// back to the cell.
pub proof fn lemma_cell_index(w: int, h: int, c: Cell)
    requires
        board_fits(w, h),
        on_board(w, h, c),
    ensures
        0 <= cell_index(w, c) < w * h,
        index_cell(w, cell_index(w, c)) == c,
{
    let x = c.0 as int;
    let y = c.1 as int;
    lemma_fundamental_div_mod_converse(y * w + x, w, y, x);
    assert(0 <= y * w + x < w * h) by (nonlinear_arith)
        requires
            0 <= x < w,
            0 <= y < h,
    ;
}

/// Every position below `w * h` is the position of a cell on the board.
pub proof fn lemma_index_cell(w: int, h: int, k: int)
    requires
        board_fits(w, h),
        0 <= k < w * h,
    ensures
        on_board(w, h, index_cell(w, k)),
        cell_index(w, index_cell(w, k)) == k,
{
    let q = k / w;
    let r = k % w;
    assert(k == q * w + r && 0 <= r < w && 0 <= q < h) by (nonlinear_arith)
        requires
            1 <= w,
            0 <= k < w * h,
            q == k / w,
            r == k % w,
    ;
}

/// Row-major positions of a sequence of cells.
pub open spec fn cell_indices(w: int, cells: Seq<Cell>) -> Seq<int> {
    cells.map_values(|c: Cell| cell_index(w, c))
}

/// Pairwise distinct cells on a `w` by `h` board number at most `w * h`.
pub proof fn lemma_distinct_cells_fit(w: int, h: int, cells: Seq<Cell>)
    requires
        board_fits(w, h),
        cells.no_duplicates(),
        forall|i: int| 0 <= i < cells.len() ==> on_board(w, h, #[trigger] cells[i]),
    ensures
        cells.len() <= w * h,
{
    let m = cell_indices(w, cells);
    assert forall|i: int, j: int| 0 <= i < m.len() && 0 <= j < m.len() && i != j implies m[i]
        != m[j] by {
        lemma_cell_index(w, h, cells[i]);
        lemma_cell_index(w, h, cells[j]);
    }
    assert(m.no_duplicates());
    m.unique_seq_to_set();
    let r = set_int_range(0, w * h);
    lemma_int_range(0, w * h);
    assert forall|k: int| m.to_set().contains(k) implies r.contains(k) by {
        let i = choose|i: int| 0 <= i < m.len() && m[i] == k;
        lemma_cell_index(w, h, cells[i]);
    }
    lemma_len_subset(m.to_set(), r);
}

/// Fewer than `w * h` cells leave some cell of the board uncovered.
pub proof fn lemma_free_cell_exists(w: int, h: int, cells: Seq<Cell>)
    requires
        board_fits(w, h),
        cells.len() < w * h,
    ensures
        exists|c: Cell| on_board(w, h, c) && !cells.contains(c),
{
    if forall|c: Cell| on_board(w, h, c) ==> cells.contains(c) {
        let m = cell_indices(w, cells);
        let r = set_int_range(0, w * h);
        lemma_int_range(0, w * h);
        assert forall|k: int| r.contains(k) implies m.to_set().contains(k) by {
            lemma_index_cell(w, h, k);
            let c = index_cell(w, k);
            assert(cells.contains(c));
            let i = choose|i: int| 0 <= i < cells.len() && cells[i] == c;
            assert(m[i] == k);
        }
        lemma_len_subset(r, m.to_set());
        m.lemma_cardinality_of_set();
        assert(false);
    }
}

} // verus!
