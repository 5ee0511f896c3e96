//! Tables kept as one row after the other in a single vector.

use vstd::prelude::*;

verus! {

/// The value in row `row` and column `column` of a table with `stride` columns.
pub open spec fn cell<T>(values: Seq<T>, stride: int, row: int, column: int) -> T {
    values[row * stride + column]
}

/// A cell lies inside the table.
pub proof fn lemma_cell_inside(rows: int, stride: int, row: int, column: int)
    requires
        0 <= row < rows,
        0 <= column < stride,
    ensures
        0 <= row * stride + column < rows * stride,
        row * stride + stride <= rows * stride,
{
    assert(0 <= row * stride + column < rows * stride && row * stride + stride <= rows * stride)
        by (nonlinear_arith)
        requires
            0 <= row < rows,
            0 <= column < stride,
    ;
}

/// Different cells are kept at different places.
pub proof fn lemma_cells_apart(stride: int, row_a: int, column_a: int, row_b: int, column_b: int)
    requires
        0 <= column_a < stride,
        0 <= column_b < stride,
        row_a * stride + column_a == row_b * stride + column_b,
    ensures
        row_a == row_b,
        column_a == column_b,
{
    assert(row_a == row_b) by (nonlinear_arith)
        requires
            0 <= column_a < stride,
            0 <= column_b < stride,
            row_a * stride + column_a == row_b * stride + column_b,
    ;
}

/// A row lies at or before the end of a table with more rows.
pub proof fn lemma_row_inside(rows: int, stride: int, row: int)
    requires
        0 <= row <= rows,
        0 <= stride,
    ensures
        0 <= row * stride <= rows * stride,
{
    assert(0 <= row * stride <= rows * stride) by (nonlinear_arith)
        requires
            0 <= row <= rows,
            0 <= stride,
    ;
}

/// Takes a row out of a table and moves the last row there.
pub fn swap_remove_stride<T: Copy>(
    values: &mut Vec<T>,
    row: usize,
    row_count: usize,
    stride: usize,
)
    requires
        row < row_count,
        old(values)@.len() == row_count * stride,
    ensures
        final(values)@.len() == (row_count - 1) * stride,
        forall|r: int, c: int|
            0 <= r < row_count - 1 && 0 <= c < stride ==> #[trigger] cell(
                final(values)@,
                stride as int,
                r,
                c,
            ) == cell(
                old(values)@,
                stride as int,
                if r == row {
                    row_count - 1
                } else {
                    r
                },
                c,
            ),
{
    if stride == 0 {
        proof {
            assert((row_count - 1) * stride == 0) by (nonlinear_arith)
                requires
                    stride == 0,
            ;
            assert(row_count * stride == 0) by (nonlinear_arith)
                requires
                    stride == 0,
            ;
        }
        return ;
    }
    let last_row: usize = row_count - 1;
    let total: usize = values.len();
    let ghost before = values@;
    proof {
        lemma_cell_inside(row_count as int, stride as int, last_row as int, 0);
        lemma_cell_inside(row_count as int, stride as int, row as int, 0);
    }
    let source: usize = last_row * stride;
    let target: usize = row * stride;
    if row != last_row {
        proof {
            lemma_cell_inside(last_row as int, stride as int, row as int, 0);
        }
        let mut column: usize = 0;
        while column < stride
            invariant
                column <= stride,
                row < last_row,
                last_row + 1 == row_count,
                stride > 0,
                source == last_row * stride,
                target == row * stride,
                source + stride <= before.len() == total,
                target + stride <= source,
                values@.len() == before.len(),
                before.len() == row_count * stride,
                forall|i: int|
                    0 <= i < before.len() ==> #[trigger] values@[i] == if target <= i < target
                        + column {
                        before[i - target + source]
                    } else {
                        before[i]
                    },
            decreases stride - column,
        {
            let value = values[source + column];
            values.set(target + column, value);
            column = column + 1;
        }
    }
    values.truncate(source);
    assert forall|r: int, c: int| 0 <= r < row_count - 1 && 0 <= c < stride implies #[trigger] cell(
        values@,
        stride as int,
        r,
        c,
    ) == cell(
        before,
        stride as int,
        if r == row {
            row_count - 1
        } else {
            r
        },
        c,
    ) by {
        lemma_cell_inside(last_row as int, stride as int, r, c);
        lemma_cell_inside(row_count as int, stride as int, r, c);
        let i = r * stride + c;
        if target <= i < target + stride {
            lemma_cells_apart(stride as int, r, c, row as int, i - target);
        }
        if r == row {
            assert(target <= i < target + stride);
        }
    }
}

} // verus!
