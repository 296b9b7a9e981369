//! Deinterleaving of Bayer mosaics.
//!
//! Neighbouring samples of a mosaic have different colours. For compression the
//! rows and the columns of even number are moved to the front, so that every
//! quadrant of the image holds samples of one colour.

use vstd::arithmetic::div_mod::{
    lemma_fundamental_div_mod, lemma_fundamental_div_mod_converse,
};
use vstd::prelude::*;

verus! {

/// Which of `n` lines stands at place `i` once those of even number are in front.
pub open spec fn line_at(i: int, n: int) -> int {
    if i < (n + 1) / 2 {
        2 * i
    } else {
        2 * (i - (n + 1) / 2) + 1
    }
}

/// The place of line `j` of `n` once those of even number are in front.
pub open spec fn place_of(j: int, n: int) -> int {
    if j % 2 == 0 {
        j / 2
    } else {
        (n + 1) / 2 + j / 2
    }
}

/// The mosaic with its even rows and columns in front.
pub open spec fn deinterleaved(mosaic: Seq<u16>, width: nat, height: nat) -> Seq<u16> {
    Seq::new(
        width * height,
        |i: int|
            mosaic[line_at(i / width as int, height as int) * width + line_at(
                i % width as int,
                width as int,
            )],
    )
}

/// The mosaic whose even rows and columns are in front.
pub open spec fn interleaved(planes: Seq<u16>, width: nat, height: nat) -> Seq<u16> {
    Seq::new(
        width * height,
        |i: int|
            planes[place_of(i / width as int, height as int) * width + place_of(
                i % width as int,
                width as int,
            )],
    )
}

/// Places and lines determine each other.
proof fn lemma_lines(i: int, n: int)
    requires
        0 <= i < n,
    ensures
        0 <= line_at(i, n) < n,
        0 <= place_of(i, n) < n,
        place_of(line_at(i, n), n) == i,
        line_at(place_of(i, n), n) == i,
{
}

/// A place in a grid determines its row and column.
proof fn lemma_grid(row: int, col: int, width: int, height: int)
    requires
        0 <= row < height,
        0 <= col < width,
    ensures
        (row * width + col) / width == row,
        (row * width + col) % width == col,
        0 <= row * width + col < width * height,
{
    assert(row * width >= 0) by (nonlinear_arith)
        requires
            row >= 0,
            width >= 0,
    ;
    assert(row * width + width <= width * height) by (nonlinear_arith)
        requires
            row + 1 <= height,
            width >= 0,
    ;
    lemma_fundamental_div_mod_converse(row * width + col, width, row, col);
}

/// The row and column of a place in a grid.
proof fn lemma_grid_place(i: int, width: int, height: int)
    requires
        0 <= i < width * height,
        width >= 0,
    ensures
        0 <= i / width < height,
        0 <= i % width < width,
        (i / width) * width + i % width == i,
{
    if width == 0 {
        assert(width * height == 0) by (nonlinear_arith)
            requires
                width == 0,
        ;
    }
    lemma_fundamental_div_mod(i, width);
    let q = i / width;
    assert(q * width == width * q) by (nonlinear_arith);
    assert(q < height) by (nonlinear_arith)
        requires
            width * q <= i,
            i < width * height,
            width > 0,
    ;
}

/// Interleaving undoes deinterleaving.
pub proof fn lemma_interleave_inverts_deinterleave(mosaic: Seq<u16>, width: nat, height: nat)
    requires
        mosaic.len() == width * height,
    ensures
        interleaved(deinterleaved(mosaic, width, height), width, height) == mosaic,
{
    let planes = deinterleaved(mosaic, width, height);
    let back = interleaved(planes, width, height);
    let (w, h) = (width as int, height as int);
    assert forall|i: int| 0 <= i < mosaic.len() implies back[i] == mosaic[i] by {
        lemma_grid_place(i, w, h);
        let (row, col) = (i / w, i % w);
        lemma_lines(row, h);
        lemma_lines(col, w);
        lemma_grid(place_of(row, h), place_of(col, w), w, h);
    }
    assert(back =~= mosaic);
}

/// Deinterleaving undoes interleaving.
pub proof fn lemma_deinterleave_inverts_interleave(planes: Seq<u16>, width: nat, height: nat)
    requires
        planes.len() == width * height,
    ensures
        deinterleaved(interleaved(planes, width, height), width, height) == planes,
{
    let mosaic = interleaved(planes, width, height);
    let back = deinterleaved(mosaic, width, height);
    let (w, h) = (width as int, height as int);
    assert forall|i: int| 0 <= i < planes.len() implies back[i] == planes[i] by {
        lemma_grid_place(i, w, h);
        let (row, col) = (i / w, i % w);
        lemma_lines(row, h);
        lemma_lines(col, w);
        lemma_grid(line_at(row, h), line_at(col, w), w, h);
    }
    assert(back =~= planes);
}

/// Moves the even rows and columns of a mosaic to the front.
pub fn deinterleave(mosaic: &[u16], width: usize, height: usize) -> (planes: Vec<u16>)
    requires
        mosaic@.len() == width * height,
    ensures
        planes@ == deinterleaved(mosaic@, width as nat, height as nat),
{
    let ghost all = deinterleaved(mosaic@, width as nat, height as nat);
    let ghost (w, h) = (width as int, height as int);
    let size: usize = mosaic.len();
    let even_rows: usize = height / 2 + height % 2;
    let even_cols: usize = width / 2 + width % 2;
    let mut planes: Vec<u16> = Vec::new();
    let mut row: usize = 0;
    while row < height
        invariant
            w == width,
            h == height,
            size == mosaic@.len(),
            mosaic@.len() == width * height,
            even_rows == (height + 1) / 2,
            even_cols == (width + 1) / 2,
            all == deinterleaved(mosaic@, width as nat, height as nat),
            0 <= row <= height,
            planes@.len() == row * width,
            planes@ == all.take(row * width),
        decreases height - row,
    {
        let from_row: usize = if row < even_rows {
            2 * row
        } else {
            2 * (row - even_rows) + 1
        };
        let mut col: usize = 0;
        proof {
            assert((row + 1) * width == row * width + width) by (nonlinear_arith);
            assert((row + 1) * width <= width * height) by (nonlinear_arith)
                requires
                    row < height,
            ;
        }
        while col < width
            invariant
                w == width,
                h == height,
                size == mosaic@.len(),
                mosaic@.len() == width * height,
                even_cols == (width + 1) / 2,
                all == deinterleaved(mosaic@, width as nat, height as nat),
                row < height,
                from_row == line_at(row as int, h),
                (row + 1) * width == row * width + width,
                (row + 1) * width <= width * height,
                0 <= col <= width,
                planes@.len() == row * width + col,
                planes@ == all.take(row * width + col),
            decreases width - col,
        {
            let from_col: usize = if col < even_cols {
                2 * col
            } else {
                2 * (col - even_cols) + 1
            };
            proof {
                lemma_lines(row as int, h);
                lemma_lines(col as int, w);
                lemma_grid(from_row as int, from_col as int, w, h);
                lemma_grid(row as int, col as int, w, h);
                assert(from_row * width >= 0) by (nonlinear_arith);
                assert(all.take(row * width + col + 1) =~= all.take(row * width + col).push(
                    all[row * width + col],
                ));
            }
            planes.push(mosaic[from_row * width + from_col]);
            col = col + 1;
        }
        row = row + 1;
    }
    proof {
        assert(height * width == width * height) by (nonlinear_arith);
        assert(all.take(all.len() as int) =~= all);
    }
    planes
}

/// Moves the even rows and columns back in between the odd ones.
pub fn interleave(planes: &[u16], width: usize, height: usize) -> (mosaic: Vec<u16>)
    requires
        planes@.len() == width * height,
    ensures
        mosaic@ == interleaved(planes@, width as nat, height as nat),
{
    let ghost all = interleaved(planes@, width as nat, height as nat);
    let ghost (w, h) = (width as int, height as int);
    let size: usize = planes.len();
    let even_rows: usize = height / 2 + height % 2;
    let even_cols: usize = width / 2 + width % 2;
    let mut mosaic: Vec<u16> = Vec::new();
    let mut row: usize = 0;
    while row < height
        invariant
            w == width,
            h == height,
            size == planes@.len(),
            planes@.len() == width * height,
            even_rows == (height + 1) / 2,
            even_cols == (width + 1) / 2,
            all == interleaved(planes@, width as nat, height as nat),
            0 <= row <= height,
            mosaic@.len() == row * width,
            mosaic@ == all.take(row * width),
        decreases height - row,
    {
        proof {
            lemma_lines(row as int, h);
        }
        let from_row: usize = if row % 2 == 0 {
            row / 2
        } else {
            even_rows + row / 2
        };
        let mut col: usize = 0;
        proof {
            assert((row + 1) * width == row * width + width) by (nonlinear_arith);
            assert((row + 1) * width <= width * height) by (nonlinear_arith)
                requires
                    row < height,
            ;
        }
        while col < width
            invariant
                w == width,
                h == height,
                size == planes@.len(),
                planes@.len() == width * height,
                even_cols == (width + 1) / 2,
                all == interleaved(planes@, width as nat, height as nat),
                row < height,
                from_row == place_of(row as int, h),
                (row + 1) * width == row * width + width,
                (row + 1) * width <= width * height,
                0 <= col <= width,
                mosaic@.len() == row * width + col,
                mosaic@ == all.take(row * width + col),
            decreases width - col,
        {
            proof {
                lemma_lines(row as int, h);
                lemma_lines(col as int, w);
            }
            let from_col: usize = if col % 2 == 0 {
                col / 2
            } else {
                even_cols + col / 2
            };
            proof {
                lemma_grid(from_row as int, from_col as int, w, h);
                lemma_grid(row as int, col as int, w, h);
                assert(from_row * width >= 0) by (nonlinear_arith);
                assert(all.take(row * width + col + 1) =~= all.take(row * width + col).push(
                    all[row * width + col],
                ));
            }
            mosaic.push(planes[from_row * width + from_col]);
            col = col + 1;
        }
        row = row + 1;
    }
    proof {
        assert(height * width == width * height) by (nonlinear_arith);
        assert(all.take(all.len() as int) =~= all);
    }
    mosaic
}

/// Where a sample goes: the even rows come first, then the odd ones, and in each row
/// the even columns come first, then the odd ones; both keep their order.
pub proof fn lemma_quadrants(mosaic: Seq<u16>, width: nat, height: nat, row: int, col: int)
    requires
        0 <= row < height,
        0 <= col < width,
    ensures
        ({
            let r = row / 2 + if row % 2 == 1 {
                (height + 1) / 2
            } else {
                0
            };
            let c = col / 2 + if col % 2 == 1 {
                (width + 1) / 2
            } else {
                0
            };
            &&& 0 <= r < height
            &&& 0 <= c < width
            &&& deinterleaved(mosaic, width, height).len() == width * height
            &&& deinterleaved(mosaic, width, height)[r * width + c] == mosaic[row * width + col]
            &&& interleaved(mosaic, width, height).len() == width * height
            &&& interleaved(mosaic, width, height)[row * width + col] == mosaic[r * width + c]
        }),
{
    let w = width as int;
    let h = height as int;
    let r = place_of(row, h);
    let c = place_of(col, w);
    lemma_lines(row, h);
    lemma_lines(col, w);
    lemma_fundamental_div_mod_converse(r * w + c, w, r, c);
    lemma_fundamental_div_mod_converse(row * w + col, w, row, col);
    assert(0 <= r * w && r * w + w <= w * h) by (nonlinear_arith)
        requires
            0 <= r < h,
            w >= 0,
    ;
    assert(0 <= row * w && row * w + w <= w * h) by (nonlinear_arith)
        requires
            0 <= row < h,
            w >= 0,
    ;
}

} // verus!
