//! A grid of cells, each with the items that lie in it.

use crate::data as d;
use std::collections::HashMap;
use vstd::prelude::*;

verus! {

/// Members of one cell.
pub open spec fn cell_list(grid: Map<u64, Vec<u32>>, gy: int, gx: int) -> Seq<u32> {
    if i32::MIN <= gy <= i32::MAX && i32::MIN <= gx <= i32::MAX && grid.dom().contains(
        d::spec_cell_key(gy, gx) as u64,
    ) {
        grid[d::spec_cell_key(gy, gx) as u64]@
    } else {
        Seq::empty()
    }
}

/// Members of the first `n` cells of a row, from column `gx` on.
pub open spec fn row_list(grid: Map<u64, Vec<u32>>, gy: int, gx: int, n: int) -> Seq<u32>
    decreases n,
{
    if n <= 0 {
        Seq::empty()
    } else {
        row_list(grid, gy, gx, n - 1) + cell_list(grid, gy, gx + n - 1)
    }
}

/// Members of the first `n` rows of a block of cells `width` columns wide, from row `gy` on.
pub open spec fn block_list(
    grid: Map<u64, Vec<u32>>,
    gy: int,
    gx: int,
    width: int,
    n: int,
) -> Seq<u32>
    decreases n,
{
    if n <= 0 {
        Seq::empty()
    } else {
        block_list(grid, gy, gx, width, n - 1) + row_list(grid, gy + n - 1, gx, width)
    }
}

/// Members of the cells at most `radius` cells away, row by row.
pub fn around(grid: &HashMap<u64, Vec<u32>>, gy: i32, gx: i32, radius: u8) -> (r: Vec<u32>)
    ensures
        r@ == block_list(
            grid@,
            gy - radius,
            gx - radius,
            2 * radius + 1,
            2 * radius + 1,
        ),
{
    broadcast use vstd::std_specs::hash::group_hash_axioms;

    let width: i64 = 2 * (radius as i64) + 1;
    let top: i64 = gy as i64 - radius as i64;
    let left: i64 = gx as i64 - radius as i64;
    let mut out: Vec<u32> = Vec::new();
    let mut y: i64 = 0;
    while y < width
        invariant
            0 <= y <= width,
            width == 2 * radius + 1,
            top == gy - radius,
            left == gx - radius,
            out@ == block_list(grid@, top as int, left as int, width as int, y as int),
        decreases width - y,
    {
        let ghost rows = out@;
        let mut x: i64 = 0;
        while x < width
            invariant
                0 <= y < width,
                0 <= x <= width,
                width == 2 * radius + 1,
                top == gy - radius,
                left == gx - radius,
                out@ == rows + row_list(grid@, top + y, left as int, x as int),
            decreases width - x,
        {
            let ghost before = out@;
            let cy: i64 = top + y;
            let cx: i64 = left + x;
            if i32::MIN as i64 <= cy && cy <= i32::MAX as i64 && i32::MIN as i64 <= cx && cx
                <= i32::MAX as i64 {
                match grid.get(&d::cell_key(cy as i32, cx as i32)) {
                    Some(list) => {
                        out.extend_from_slice(list.as_slice());
                    },
                    None => {},
                }
            }
            assert(out@ =~= before + cell_list(grid@, cy as int, cx as int));
            x += 1;
            assert(out@ =~= rows + row_list(grid@, top + y, left as int, x as int));
        }
        y += 1;
    }
    out
}

/// Which of the first `n` picked items lie in a cell, in order.
pub open spec fn members(
    cells: Seq<(i32, i32)>,
    pick: Seq<bool>,
    gy: int,
    gx: int,
    n: int,
) -> Seq<u32>
    decreases n,
{
    if n <= 0 {
        Seq::empty()
    } else {
        let front = members(cells, pick, gy, gx, n - 1);
        if pick[n - 1] && cells[n - 1].0 == gy && cells[n - 1].1 == gx {
            front.push((n - 1) as u32)
        } else {
            front
        }
    }
}

/// Every cell of the grid lists the picked items that lie in it.
pub open spec fn lists_members(
    grid: Map<u64, Vec<u32>>,
    cells: Seq<(i32, i32)>,
    pick: Seq<bool>,
    n: int,
) -> bool {
    forall|gy: int, gx: int|
        i32::MIN <= gy <= i32::MAX && i32::MIN <= gx <= i32::MAX ==> #[trigger] cell_list(
            grid,
            gy,
            gx,
        ) == members(cells, pick, gy, gx, n)
}

/// The grid of the picked items.
pub fn build(cells: &Vec<(i32, i32)>, pick: &Vec<bool>) -> (r: HashMap<u64, Vec<u32>>)
    requires
        pick@.len() == cells@.len(),
    ensures
        lists_members(r@, cells@, pick@, cells@.len() as int),
{
    broadcast use vstd::std_specs::hash::group_hash_axioms;

    let mut grid: HashMap<u64, Vec<u32>> = HashMap::new();
    let mut i: usize = 0;
    assert forall|gy: int, gx: int| true implies #[trigger] cell_list(grid@, gy, gx) == members(
        cells@,
        pick@,
        gy,
        gx,
        0,
    ) by {}
    while i < cells.len()
        invariant
            i <= cells@.len(),
            pick@.len() == cells@.len(),
            lists_members(grid@, cells@, pick@, i as int),
        decreases cells@.len() - i,
    {
        let ghost before = grid@;
        if pick[i] {
            let (gy, gx) = cells[i];
            let key: u64 = d::cell_key(gy, gx);
            let mut list: Vec<u32> = match grid.remove(&key) {
                Some(v) => v,
                None => Vec::new(),
            };
            assert(list@ =~= cell_list(before, gy as int, gx as int));
            list.push(i as u32);
            let ghost new_list = list@;
            grid.insert(key, list);
            proof {
                assert(grid@ =~= before.insert(key, list));
                assert forall|y: int, x: int|
                    i32::MIN <= y <= i32::MAX && i32::MIN <= x <= i32::MAX implies
                    #[trigger] cell_list(grid@, y, x) == members(
                    cells@,
                    pick@,
                    y,
                    x,
                    i as int + 1,
                ) by {
                    assert(cell_list(before, y, x) == members(cells@, pick@, y, x, i as int));
                    if d::spec_cell_key(y, x) as u64 == key {
                        d::cell_key_injective(y as i32, x as i32, gy, gx);
                    }
                }
            }
        } else {
            assert forall|y: int, x: int|
                i32::MIN <= y <= i32::MAX && i32::MIN <= x <= i32::MAX implies
                #[trigger] cell_list(grid@, y, x) == members(cells@, pick@, y, x, i as int + 1) by {
                assert(cell_list(before, y, x) == members(cells@, pick@, y, x, i as int));
            }
        }
        i += 1;
    }
    grid
}

/// A cell lists an item if and only if it was picked and lies there.
pub proof fn cell_lists_what_lies_in_it(
    cells: Seq<(i32, i32)>,
    pick: Seq<bool>,
    gy: int,
    gx: int,
    n: int,
    i: int,
)
    requires
        0 <= i < n <= cells.len(),
        pick.len() == cells.len(),
        n <= u32::MAX,
    ensures
        members(cells, pick, gy, gx, n).contains(i as u32) <==> pick[i] && cells[i].0 == gy
            && cells[i].1 == gx,
    decreases n,
{
    let s = members(cells, pick, gy, gx, n);
    let front = members(cells, pick, gy, gx, n - 1);
    lemma_members_below(cells, pick, gy, gx, n - 1);
    if i < n - 1 {
        cell_lists_what_lies_in_it(cells, pick, gy, gx, n - 1, i);
        if front.contains(i as u32) {
            let k = choose|k: int| 0 <= k < front.len() && front[k] == i as u32;
            assert(s[k] == i as u32);
        }
        if s.contains(i as u32) {
            let k = choose|k: int| 0 <= k < s.len() && s[k] == i as u32;
            assert(k < front.len());
            assert(front[k] == i as u32);
        }
    } else {
        if pick[i] && cells[i].0 == gy && cells[i].1 == gx {
            assert(s[front.len() as int] == i as u32);
        } else if s.contains(i as u32) {
            let k = choose|k: int| 0 <= k < s.len() && s[k] == i as u32;
            assert(front[k] < n - 1);
        }
    }
}

pub proof fn lemma_members_below(
    cells: Seq<(i32, i32)>,
    pick: Seq<bool>,
    gy: int,
    gx: int,
    n: int,
)
    requires
        n <= u32::MAX,
    ensures
        forall|k: int|
            0 <= k < members(cells, pick, gy, gx, n).len() ==> #[trigger] members(
                cells,
                pick,
                gy,
                gx,
                n,
            )[k] < n,
    decreases n,
{
    if n > 0 {
        lemma_members_below(cells, pick, gy, gx, n - 1);
        let front = members(cells, pick, gy, gx, n - 1);
        let s = members(cells, pick, gy, gx, n);
        assert forall|k: int| 0 <= k < s.len() implies #[trigger] s[k] < n by {
            if k < front.len() {
                assert(s[k] == front[k]);
            }
        }
    }
}

/// Picked items in a cell; none outside the grid.
pub open spec fn members_at(
    cells: Seq<(i32, i32)>,
    pick: Seq<bool>,
    gy: int,
    gx: int,
) -> Seq<u32> {
    if i32::MIN <= gy <= i32::MAX && i32::MIN <= gx <= i32::MAX {
        members(cells, pick, gy, gx, cells.len() as int)
    } else {
        Seq::empty()
    }
}

/// Picked items in the first `n` cells of a row, from column `gx` on.
pub open spec fn row_members(
    cells: Seq<(i32, i32)>,
    pick: Seq<bool>,
    gy: int,
    gx: int,
    n: int,
) -> Seq<u32>
    decreases n,
{
    if n <= 0 {
        Seq::empty()
    } else {
        row_members(cells, pick, gy, gx, n - 1) + members_at(cells, pick, gy, gx + n - 1)
    }
}

/// Picked items in the first `n` rows of a block of cells `width` columns wide, from row `gy` on.
pub open spec fn block_members(
    cells: Seq<(i32, i32)>,
    pick: Seq<bool>,
    gy: int,
    gx: int,
    width: int,
    n: int,
) -> Seq<u32>
    decreases n,
{
    if n <= 0 {
        Seq::empty()
    } else {
        block_members(cells, pick, gy, gx, width, n - 1) + row_members(
            cells,
            pick,
            gy + n - 1,
            gx,
            width,
        )
    }
}

/// Picked items in the cells at most `radius` cells away, row by row.
pub open spec fn members_around(
    cells: Seq<(i32, i32)>,
    pick: Seq<bool>,
    gy: int,
    gx: int,
    radius: int,
) -> Seq<u32> {
    block_members(cells, pick, gy - radius, gx - radius, 2 * radius + 1, 2 * radius + 1)
}

proof fn lemma_row(
    grid: Map<u64, Vec<u32>>,
    cells: Seq<(i32, i32)>,
    pick: Seq<bool>,
    gy: int,
    gx: int,
    n: int,
)
    requires
        lists_members(grid, cells, pick, cells.len() as int),
    ensures
        row_list(grid, gy, gx, n) == row_members(cells, pick, gy, gx, n),
    decreases n,
{
    if n > 0 {
        lemma_row(grid, cells, pick, gy, gx, n - 1);
        if i32::MIN <= gy <= i32::MAX && i32::MIN <= gx + n - 1 <= i32::MAX {
            assert(cell_list(grid, gy, gx + n - 1) == members(
                cells,
                pick,
                gy,
                gx + n - 1,
                cells.len() as int,
            ));
        }
    }
}

pub proof fn lemma_block(
    grid: Map<u64, Vec<u32>>,
    cells: Seq<(i32, i32)>,
    pick: Seq<bool>,
    gy: int,
    gx: int,
    width: int,
    n: int,
)
    requires
        lists_members(grid, cells, pick, cells.len() as int),
    ensures
        block_list(grid, gy, gx, width, n) == block_members(cells, pick, gy, gx, width, n),
    decreases n,
{
    if n > 0 {
        lemma_block(grid, cells, pick, gy, gx, width, n - 1);
        lemma_row(grid, cells, pick, gy + n - 1, gx, width);
    }
}

/// Every item around a cell is one of the first `cells.len()`.
pub proof fn lemma_around_below(
    cells: Seq<(i32, i32)>,
    pick: Seq<bool>,
    gy: int,
    gx: int,
    width: int,
    n: int,
)
    requires
        cells.len() <= u32::MAX,
    ensures
        forall|k: int|
            0 <= k < block_members(cells, pick, gy, gx, width, n).len() ==> #[trigger] block_members(
                cells,
                pick,
                gy,
                gx,
                width,
                n,
            )[k] < cells.len(),
    decreases n,
{
    if n > 0 {
        lemma_around_below(cells, pick, gy, gx, width, n - 1);
        lemma_row_below(cells, pick, gy + n - 1, gx, width);
        let a = block_members(cells, pick, gy, gx, width, n - 1);
        let b = row_members(cells, pick, gy + n - 1, gx, width);
        let s = block_members(cells, pick, gy, gx, width, n);
        assert forall|k: int| 0 <= k < s.len() implies #[trigger] s[k] < cells.len() by {
            if k < a.len() {
                assert(s[k] == a[k]);
            } else {
                assert(s[k] == b[k - a.len()]);
            }
        }
    }
}

proof fn lemma_row_below(cells: Seq<(i32, i32)>, pick: Seq<bool>, gy: int, gx: int, n: int)
    requires
        cells.len() <= u32::MAX,
    ensures
        forall|k: int|
            0 <= k < row_members(cells, pick, gy, gx, n).len() ==> #[trigger] row_members(
                cells,
                pick,
                gy,
                gx,
                n,
            )[k] < cells.len(),
    decreases n,
{
    if n > 0 {
        lemma_row_below(cells, pick, gy, gx, n - 1);
        lemma_members_below(cells, pick, gy, gx + n - 1, cells.len() as int);
        let a = row_members(cells, pick, gy, gx, n - 1);
        let b = members_at(cells, pick, gy, gx + n - 1);
        let s = row_members(cells, pick, gy, gx, n);
        assert forall|k: int| 0 <= k < s.len() implies #[trigger] s[k] < cells.len() by {
            if k < a.len() {
                assert(s[k] == a[k]);
            } else {
                assert(s[k] == b[k - a.len()]);
            }
        }
    }
}

/// Every picked item in a block of cells is among its members.
pub proof fn blocks_list_what_lies_in_them(
    cells: Seq<(i32, i32)>,
    pick: Seq<bool>,
    gy: int,
    gx: int,
    width: int,
    n: int,
    i: int,
)
    requires
        pick.len() == cells.len() <= u32::MAX,
        0 <= i < cells.len(),
        pick[i],
        gy <= cells[i].0 < gy + n,
        gx <= cells[i].1 < gx + width,
    ensures
        block_members(cells, pick, gy, gx, width, n).contains(i as u32),
    decreases n,
{
    let front = block_members(cells, pick, gy, gx, width, n - 1);
    let row = row_members(cells, pick, gy + n - 1, gx, width);
    if cells[i].0 == gy + n - 1 {
        lemma_row_contains(cells, pick, gy + n - 1, gx, width, i);
        let k = choose|k: int| 0 <= k < row.len() && row[k] == i as u32;
        assert((front + row)[front.len() + k] == i as u32);
    } else {
        blocks_list_what_lies_in_them(cells, pick, gy, gx, width, n - 1, i);
        let k = choose|k: int| 0 <= k < front.len() && front[k] == i as u32;
        assert((front + row)[k] == i as u32);
    }
}

proof fn lemma_row_contains(
    cells: Seq<(i32, i32)>,
    pick: Seq<bool>,
    gy: int,
    gx: int,
    n: int,
    i: int,
)
    requires
        pick.len() == cells.len() <= u32::MAX,
        0 <= i < cells.len(),
        pick[i],
        cells[i].0 == gy,
        gx <= cells[i].1 < gx + n,
    ensures
        row_members(cells, pick, gy, gx, n).contains(i as u32),
    decreases n,
{
    let front = row_members(cells, pick, gy, gx, n - 1);
    let cell = members_at(cells, pick, gy, gx + n - 1);
    if cells[i].1 == gx + n - 1 {
        cell_lists_what_lies_in_it(cells, pick, gy, gx + n - 1, cells.len() as int, i);
        let k = choose|k: int| 0 <= k < cell.len() && cell[k] == i as u32;
        assert((front + cell)[front.len() + k] == i as u32);
    } else {
        lemma_row_contains(cells, pick, gy, gx, n - 1, i);
        let k = choose|k: int| 0 <= k < front.len() && front[k] == i as u32;
        assert((front + cell)[k] == i as u32);
    }
}

proof fn lemma_row_within(cells: Seq<(i32, i32)>, pick: Seq<bool>, gy: int, gx: int, n: int, k: int)
    requires
        pick.len() == cells.len() <= u32::MAX,
        0 <= k < row_members(cells, pick, gy, gx, n).len(),
    ensures
        ({
            let i = row_members(cells, pick, gy, gx, n)[k] as int;
            i < cells.len() && pick[i] && cells[i].0 == gy && gx <= cells[i].1 < gx + n
        }),
    decreases n,
{
    if n > 0 {
        let front = row_members(cells, pick, gy, gx, n - 1);
        let own = members(cells, pick, gy, gx + n - 1, cells.len() as int);
        let i = row_members(cells, pick, gy, gx, n)[k];
        if k < front.len() {
            lemma_row_within(cells, pick, gy, gx, n - 1, k);
        } else {
            lemma_members_below(cells, pick, gy, gx + n - 1, cells.len() as int);
            assert(own[k - front.len()] == i);
            assert(own.contains(i));
            cell_lists_what_lies_in_it(cells, pick, gy, gx + n - 1, cells.len() as int, i as int);
        }
    }
}

proof fn lemma_block_within(
    cells: Seq<(i32, i32)>,
    pick: Seq<bool>,
    gy: int,
    gx: int,
    width: int,
    n: int,
    k: int,
)
    requires
        pick.len() == cells.len() <= u32::MAX,
        0 <= k < block_members(cells, pick, gy, gx, width, n).len(),
    ensures
        ({
            let i = block_members(cells, pick, gy, gx, width, n)[k] as int;
            i < cells.len() && pick[i] && gy <= cells[i].0 < gy + n && gx <= cells[i].1 < gx + width
        }),
    decreases n,
{
    if n > 0 {
        let front = block_members(cells, pick, gy, gx, width, n - 1);
        if k < front.len() {
            lemma_block_within(cells, pick, gy, gx, width, n - 1, k);
        } else {
            lemma_row_within(cells, pick, gy + n - 1, gx, width, k - front.len());
        }
    }
}

/// Around a cell exactly those picked items are listed that lie at most `radius` cells away from it,
/// by row and by column.
pub proof fn squares_list_what_lies_in_them(
    cells: Seq<(i32, i32)>,
    pick: Seq<bool>,
    gy: int,
    gx: int,
    radius: int,
    i: u32,
)
    requires
        pick.len() == cells.len() <= u32::MAX,
        radius >= 0,
    ensures
        members_around(cells, pick, gy, gx, radius).contains(i) <==> i < cells.len()
            && pick[i as int] && -radius <= cells[i as int].0 - gy <= radius && -radius
            <= cells[i as int].1 - gx <= radius,
{
    let all = members_around(cells, pick, gy, gx, radius);
    let w = 2 * radius + 1;
    if all.contains(i) {
        let k = choose|k: int| 0 <= k < all.len() && all[k] == i;
        lemma_block_within(cells, pick, gy - radius, gx - radius, w, w, k);
    }
    if i < cells.len() && pick[i as int] && -radius <= cells[i as int].0 - gy <= radius && -radius
        <= cells[i as int].1 - gx <= radius {
        blocks_list_what_lies_in_them(cells, pick, gy - radius, gx - radius, w, w, i as int);
    }
}

} // verus!
