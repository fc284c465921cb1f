//! The row transcoder: the per-pixel luminance transform, the per-row
//! greyscale map, the BMP row-padding rule, and the streaming transform of a
//! whole pixel region, row by row, with padding bytes passed through
//! unchanged.

use crate::header::copy_range;
use vstd::arithmetic::div_mod::lemma_fundamental_div_mod_converse;
use vstd::arithmetic::mul::lemma_mul_inequality;
use vstd::prelude::*;

verus! {

/// Luminance of one (blue, green, red) byte-triple: the weighted sum
/// `(114 b + 587 g + 299 r) / 1000`, truncated toward zero. The weights sum
/// to 1000, so the result always fits a byte, and three equal channels map
/// to themselves.
pub open spec fn lum(b: u8, g: u8, r: u8) -> u8 {
    (((114 * b + 587 * g + 299 * r) as int / 1000) as u8)
}

/// Computes the luminance of one (blue, green, red) byte-triple.
pub fn luminance(b: u8, g: u8, r: u8) -> (res: u8)
    ensures
        res == lum(b, g, r),
{
    let sum: u32 = 114 * (b as u32) + 587 * (g as u32) + 299 * (r as u32);
    (sum / 1000) as u8
}

/// A pixel row after the greyscale transform: every byte of a 3-byte triple
/// is replaced by the luminance of that triple. Meaningful for rows whose
/// length is a multiple of 3.
pub open spec fn grey_row(row: Seq<u8>) -> Seq<u8> {
    Seq::new(
        row.len(),
        |i: int|
            {
                let p = 3 * (i / 3);
                lum(row[p], row[p + 1], row[p + 2])
            },
    )
}

/// The BMP row-alignment rule: the number of filler bytes that brings a row
/// of `rw` pixel bytes up to a multiple of 4.
pub open spec fn spec_padding(rw: int) -> int {
    (4 - rw % 4) % 4
}

/// Computes the padding for a row of `rw` pixel bytes.
pub fn padding_for(rw: usize) -> (r: usize)
    ensures
        r == spec_padding(rw as int),
        r < 4,
        (rw + r) % 4 == 0,
{
    (4 - rw % 4) % 4
}

/// Greyscale of three equal channels is the identity: the weights sum to
/// 1000, so `lum(v, v, v) == v` exactly.
pub proof fn lemma_lum_fixed_point(v: u8)
    ensures
        lum(v, v, v) == v,
{
    assert(114 * v + 587 * v + 299 * v == 1000 * v);
    assert(1000 * (v as int) / 1000 == v) by (nonlinear_arith);
}

/// Within one transformed row, the three bytes of each pixel are equal.
pub proof fn lemma_grey_row_triples_equal(row: Seq<u8>, i: int)
    requires
        row.len() % 3 == 0,
        0 <= i < row.len(),
    ensures
        grey_row(row)[i] == grey_row(row)[3 * (i / 3)],
{
    let p = 3 * (i / 3);
    assert(p / 3 == i / 3);
}

/// The greyscale transform is idempotent on rows: transcoding an already
/// greyscaled row changes nothing.
pub proof fn lemma_grey_row_idempotent(row: Seq<u8>)
    requires
        row.len() % 3 == 0,
    ensures
        grey_row(grey_row(row)) == grey_row(row),
{
    let g = grey_row(row);
    assert forall|i: int| 0 <= i < row.len() implies grey_row(g)[i] == g[i] by {
        let p = 3 * (i / 3);
        assert(p + 2 < row.len());
        assert(p / 3 == i / 3);
        assert((p + 1) / 3 == i / 3);
        assert((p + 2) / 3 == i / 3);
        let v = lum(row[p], row[p + 1], row[p + 2]);
        assert(g[p] == v && g[p + 1] == v && g[p + 2] == v);
        lemma_lum_fixed_point(v);
    }
    assert(grey_row(g) =~= g);
}

/// Turns the row `row` grey in place: after the call it is the greyscale
/// image of its old contents.
pub fn greyscale_row(row: &mut Vec<u8>)
    requires
        old(row).len() % 3 == 0,
    ensures
        final(row)@ == grey_row(old(row)@),
{
    let ghost orig = row@;
    let n = row.len();
    let mut col: usize = 0;
    while col < n
        invariant
            n == orig.len(),
            n % 3 == 0,
            col % 3 == 0,
            col <= n,
            row.len() == n,
            forall|i: int| 0 <= i < col ==> row@[i] == grey_row(orig)[i],
            forall|i: int| col <= i < n ==> row@[i] == orig[i],
        decreases n - col,
    {
        assert(col + 3 <= n);
        let g = luminance(row[col], row[col + 1], row[col + 2]);
        row.set(col, g);
        row.set(col + 1, g);
        row.set(col + 2, g);
        proof {
            assert(col / 3 * 3 == col);
            assert forall|i: int| col <= i < col + 3 implies row@[i] == grey_row(orig)[i] by {
                assert(i / 3 == col / 3);
                assert(3 * (i / 3) == col);
            }
        }
        col = col + 3;
    }
    assert(row@ =~= grey_row(orig));
}

/// Failure of the row transcoder: the input ended before a full row (pixel
/// bytes plus padding) could be read.
#[derive(Clone, Copy, Debug, PartialEq, Eq, Structural)]
pub enum TranscodeError {
    ShortRead,
}

/// A pixel region of `rows` rows transformed to greyscale: each row is `rw`
/// pixel bytes turned grey followed by `pad` padding bytes passed through
/// unchanged. Rows are taken from the front of `body`; bytes of `body`
/// beyond `rows * (rw + pad)` do not appear in the result.
pub open spec fn grey_region(body: Seq<u8>, rw: int, pad: int, rows: int) -> Seq<u8>
    decreases rows,
{
    if rows <= 0 {
        Seq::<u8>::empty()
    } else {
        grey_row(body.take(rw)) + body.subrange(rw, rw + pad) + grey_region(
            body.skip(rw + pad),
            rw,
            pad,
            rows - 1,
        )
    }
}

/// A transformed region is exactly as long as the rows it consumed:
/// `rows * (rw + pad)` bytes.
pub proof fn lemma_grey_region_len(body: Seq<u8>, rw: int, pad: int, rows: int)
    requires
        0 <= rw,
        0 <= pad,
        0 <= rows,
        rows * (rw + pad) <= body.len(),
    ensures
        grey_region(body, rw, pad, rows).len() == rows * (rw + pad),
    decreases rows,
{
    let t = rw + pad;
    if rows > 0 {
        assert(rows * t == (rows - 1) * t + t) by (nonlinear_arith);
        assert((rows - 1) * t >= 0) by (nonlinear_arith)
            requires
                rows >= 1,
                t >= 0,
        ;
        let rest = body.skip(t);
        assert(rest.len() == body.len() - t);
        lemma_grey_region_len(rest, rw, pad, rows - 1);
        assert(grey_row(body.take(rw)).len() == rw);
        assert(body.subrange(rw, rw + pad).len() == pad);
        assert(grey_region(body, rw, pad, rows).len() == rw + pad + (rows - 1) * t);
    } else {
        assert(rows * t == 0) by (nonlinear_arith)
            requires
                rows == 0,
        ;
    }
}

/// Unfolding a region transform at the back: transforming `rows + 1` rows is
/// transforming `rows` rows, then the greyscale of the next row's pixel
/// bytes, then its padding bytes unchanged.
#[verifier::rlimit(50)]
pub proof fn lemma_grey_region_snoc(body: Seq<u8>, rw: int, pad: int, rows: int)
    requires
        0 <= rw,
        0 <= pad,
        0 <= rows,
        (rows + 1) * (rw + pad) <= body.len(),
    ensures
        grey_region(body, rw, pad, rows + 1) == grey_region(body, rw, pad, rows) + grey_row(
            body.subrange(rows * (rw + pad), rows * (rw + pad) + rw),
        ) + body.subrange(rows * (rw + pad) + rw, (rows + 1) * (rw + pad)),
    decreases rows,
{
    let t = rw + pad;
    assert((rows + 1) * t == rows * t + t) by (nonlinear_arith);
    assert(rows * t >= 0) by (nonlinear_arith)
        requires
            rows >= 0,
            t >= 0,
    ;
    if rows == 0 {
        assert(grey_region(body.skip(t), rw, pad, 0) == Seq::<u8>::empty());
        assert(body.take(rw) =~= body.subrange(0, rw));
        assert(grey_region(body, rw, pad, 1) =~= grey_region(body, rw, pad, 0) + grey_row(
            body.subrange(0, rw),
        ) + body.subrange(rw, t));
        assert(rows * (rw + pad) == 0) by (nonlinear_arith)
            requires
                rows == 0,
        ;
        assert((rows + 1) * (rw + pad) == rw + pad) by (nonlinear_arith)
            requires
                rows == 0,
        ;
        assert(body.subrange(rows * (rw + pad), rows * (rw + pad) + rw) == body.subrange(0, rw));
        assert(body.subrange(rows * (rw + pad) + rw, (rows + 1) * (rw + pad)) == body.subrange(
            rw,
            t,
        ));
        assert(grey_region(body, rw, pad, rows + 1) == grey_region(body, rw, pad, rows)
            + grey_row(body.subrange(rows * (rw + pad), rows * (rw + pad) + rw)) + body.subrange(
            rows * (rw + pad) + rw,
            (rows + 1) * (rw + pad),
        ));
    } else {
        let rest = body.skip(t);
        assert(rows * t == (rows - 1) * t + t) by (nonlinear_arith);
        lemma_grey_region_snoc(rest, rw, pad, rows - 1);
        assert(rest.subrange((rows - 1) * t, (rows - 1) * t + rw) =~= body.subrange(
            rows * t,
            rows * t + rw,
        ));
        assert(rest.subrange((rows - 1) * t + rw, rows * t) =~= body.subrange(
            rows * t + rw,
            rows * t + t,
        ));
        assert(grey_region(body, rw, pad, rows + 1) =~= grey_region(body, rw, pad, rows)
            + grey_row(body.subrange(rows * t, rows * t + rw)) + body.subrange(
            rows * t + rw,
            rows * t + t,
        ));
        assert(grey_region(body, rw, pad, rows + 1) == grey_region(body, rw, pad, rows)
            + grey_row(body.subrange(rows * (rw + pad), rows * (rw + pad) + rw)) + body.subrange(
            rows * (rw + pad) + rw,
            (rows + 1) * (rw + pad),
        ));
    }
}

/// Row invariant of the emitted region: every emitted row spans exactly
/// `rw + pad` bytes of the output; its first `rw` bytes are the greyscale of
/// the matching input row's pixel bytes, and its last `pad` bytes are that
/// row's padding, unchanged.
#[verifier::rlimit(50)]
pub proof fn lemma_grey_region_row(body: Seq<u8>, rw: int, pad: int, rows: int, k: int)
    requires
        0 <= rw,
        0 <= pad,
        0 <= k < rows,
        rows * (rw + pad) <= body.len(),
    ensures
        ({
            let t = rw + pad;
            &&& grey_region(body, rw, pad, rows).subrange(k * t, k * t + rw) == grey_row(
                body.subrange(k * t, k * t + rw),
            )
            &&& grey_region(body, rw, pad, rows).subrange(k * t + rw, (k + 1) * t)
                == body.subrange(k * t + rw, (k + 1) * t)
        }),
    decreases k,
{
    let t = rw + pad;
    let rest = body.skip(t);
    assert(rows * t == (rows - 1) * t + t) by (nonlinear_arith);
    assert((rows - 1) * t >= 0) by (nonlinear_arith)
        requires
            rows >= 1,
            t >= 0,
    ;
    lemma_grey_region_len(rest, rw, pad, rows - 1);
    let a = grey_row(body.take(rw));
    let b = body.subrange(rw, t);
    let c = grey_region(rest, rw, pad, rows - 1);
    let out = grey_region(body, rw, pad, rows);
    assert(out == a + b + c);
    if k == 0 {
        assert(k * t == 0) by (nonlinear_arith)
            requires
                k == 0,
        ;
        assert((k + 1) * t == t) by (nonlinear_arith)
            requires
                k == 0,
        ;
        assert(body.take(rw) =~= body.subrange(0, rw));
        assert(out.subrange(0, rw) =~= a);
        assert(out.subrange(rw, t) =~= b);
        assert(out.subrange(k * t, k * t + rw) == out.subrange(0, rw));
        assert(out.subrange(k * t + rw, (k + 1) * t) == out.subrange(rw, t));
        assert(body.subrange(k * t, k * t + rw) == body.subrange(0, rw));
        assert(body.subrange(k * t + rw, (k + 1) * t) == body.subrange(rw, t));
    } else {
        assert((k - 1) * t == k * t - t) by (nonlinear_arith);
        assert((k + 1) * t == k * t + t) by (nonlinear_arith);
        assert(k * t <= (rows - 1) * t && (k - 1) * t >= 0) by (nonlinear_arith)
            requires
                1 <= k < rows,
                t >= 0,
        ;
        lemma_grey_region_row(rest, rw, pad, rows - 1, k - 1);
        assert(rest.subrange((k - 1) * t, (k - 1) * t + rw) =~= body.subrange(k * t, k * t + rw));
        assert(rest.subrange((k - 1) * t + rw, k * t) =~= body.subrange(k * t + rw, (k + 1) * t));
        assert(out.subrange(k * t, k * t + rw) =~= c.subrange((k - 1) * t, (k - 1) * t + rw));
        assert(out.subrange(k * t + rw, (k + 1) * t) =~= c.subrange((k - 1) * t + rw, k * t));
    }
}

/// The transform of `rows` rows reads nothing past them: two pixel regions
/// that agree on their first `rows * (rw + pad)` bytes transform alike.
pub proof fn lemma_grey_region_prefix(b1: Seq<u8>, b2: Seq<u8>, rw: int, pad: int, rows: int)
    requires
        0 <= rw,
        0 <= pad,
        0 <= rows,
        rows * (rw + pad) <= b1.len(),
        rows * (rw + pad) <= b2.len(),
        b1.take(rows * (rw + pad)) == b2.take(rows * (rw + pad)),
    ensures
        grey_region(b1, rw, pad, rows) == grey_region(b2, rw, pad, rows),
    decreases rows,
{
    let t = rw + pad;
    if rows > 0 {
        assert(rows * t == (rows - 1) * t + t) by (nonlinear_arith);
        assert((rows - 1) * t >= 0) by (nonlinear_arith)
            requires
                rows >= 1,
                t >= 0,
        ;
        assert forall|i: int| 0 <= i < rows * t implies b1[i] == b2[i] by {
            assert(b1.take(rows * t)[i] == b2.take(rows * t)[i]);
        }
        assert(b1.take(rw) =~= b2.take(rw));
        assert(b1.subrange(rw, t) =~= b2.subrange(rw, t));
        let r1 = b1.skip(t);
        let r2 = b2.skip(t);
        assert(r1.take((rows - 1) * t) =~= r2.take((rows - 1) * t));
        lemma_grey_region_prefix(r1, r2, rw, pad, rows - 1);
    }
}

/// Transcoding is idempotent on whole pixel regions: running the greyscale
/// transform over an already transformed region reproduces it byte for byte.
#[verifier::rlimit(50)]
pub proof fn lemma_grey_region_idempotent(body: Seq<u8>, rw: int, pad: int, rows: int)
    requires
        0 <= rw,
        rw % 3 == 0,
        0 <= pad,
        0 <= rows,
        rows * (rw + pad) <= body.len(),
    ensures
        grey_region(grey_region(body, rw, pad, rows), rw, pad, rows) == grey_region(
            body,
            rw,
            pad,
            rows,
        ),
    decreases rows,
{
    let t = rw + pad;
    if rows > 0 {
        assert(rows * t == (rows - 1) * t + t) by (nonlinear_arith);
        assert((rows - 1) * t >= 0) by (nonlinear_arith)
            requires
                rows >= 1,
                t >= 0,
        ;
        let rest = body.skip(t);
        let a = grey_row(body.take(rw));
        let b = body.subrange(rw, rw + pad);
        let c = grey_region(rest, rw, pad, rows - 1);
        let out = grey_region(body, rw, pad, rows);
        assert(out == a + b + c);
        lemma_grey_region_len(rest, rw, pad, rows - 1);
        assert(out.len() == rw + pad + (rows - 1) * t);
        assert(out.take(rw) =~= a);
        assert(out.subrange(rw, rw + pad) =~= b);
        assert(out.skip(t) =~= c);
        assert(body.take(rw).len() % 3 == 0);
        lemma_grey_row_idempotent(body.take(rw));
        assert(grey_row(a) == a);
        lemma_grey_region_idempotent(rest, rw, pad, rows - 1);
        assert(grey_region(c, rw, pad, rows - 1) == c);
        assert(grey_region(out, rw, pad, rows) == grey_row(out.take(rw)) + out.subrange(
            rw,
            rw + pad,
        ) + grey_region(out.skip(t), rw, pad, rows - 1));
        assert(grey_region(out, rw, pad, rows) == a + b + c);
    }
}

/// Streams the pixel region of `input` that begins at `start` to greyscale,
/// appending the transformed bytes to `out`: `height` rows of `3 * width`
/// pixel bytes each, the per-row padding bytes passed through unchanged.
/// Returns the position just past the region on success; fails with
/// `ShortRead`, leaving the rows that were complete appended, exactly when
/// `input` ends before `height` full rows.
pub fn convert_to_greyscale(
    input: &Vec<u8>,
    start: usize,
    width: usize,
    height: usize,
    out: &mut Vec<u8>,
) -> (r: Result<usize, TranscodeError>)
    requires
        start <= input.len(),
        3 * width + 3 <= usize::MAX,
    ensures
        ({
            let rw = 3 * width as int;
            let pad = spec_padding(rw);
            let t = rw + pad;
            let body = input@.skip(start as int);
            match r {
                Ok(end) => {
                    &&& height * t <= body.len()
                    &&& end == start + height * t
                    &&& final(out)@ == old(out)@ + grey_region(body, rw, pad, height as int)
                },
                Err(TranscodeError::ShortRead) => {
                    &&& body.len() < height * t
                    &&& t > 0
                    &&& final(out)@ == old(out)@ + grey_region(
                        body,
                        rw,
                        pad,
                        body.len() as int / t,
                    )
                },
            }
        }),
{
    let row_width = 3 * width;
    let padding = padding_for(row_width);
    let row_total = row_width + padding;
    let ghost rw = row_width as int;
    let ghost pad = padding as int;
    let ghost t = rw + pad;
    let ghost body = input@.skip(start as int);
    let mut pos = start;
    let mut row: usize = 0;
    while row < height
        invariant
            start <= pos <= input.len(),
            row <= height,
            rw == 3 * width as int,
            pad == spec_padding(rw),
            t == rw + pad,
            row_width == rw,
            row_total == t,
            row_total + 3 <= usize::MAX,
            body == input@.skip(start as int),
            pos - start == row * t,
            out@ == old(out)@ + grey_region(body, rw, pad, row as int),
        decreases height - row,
    {
        if input.len() - pos < row_total {
            proof {
                let avail = body.len() as int;
                assert(avail == row * t + (input.len() - pos));
                assert(t > 0);
                lemma_fundamental_div_mod_converse(avail, t, row as int, input.len() - pos);
                assert(avail / t == row as int);
                assert((row + 1) * t == row * t + t) by (nonlinear_arith);
                lemma_mul_inequality(row as int + 1, height as int, t);
                assert(avail < height * t);
            }
            return Err(TranscodeError::ShortRead);
        }
        assert(pos + row_total <= input.len());
        let mut rowbuf = copy_range(input, pos, pos + row_width);
        proof {
            assert(rowbuf.len() as int % 3 == 0) by (nonlinear_arith)
                requires
                    rowbuf.len() == 3 * width as int,
        ;
        }
        greyscale_row(&mut rowbuf);
        out.append(&mut rowbuf);
        let mut padbuf = copy_range(input, pos + row_width, pos + row_total);
        out.append(&mut padbuf);
        proof {
            assert((row + 1) * t == row * t + t) by (nonlinear_arith);
            assert(row * t >= 0) by (nonlinear_arith)
                requires
                    row >= 0,
                    t >= 0,
            ;
            lemma_grey_region_snoc(body, rw, pad, row as int);
            assert(body.subrange(row * t, row * t + rw) =~= input@.subrange(
                pos as int,
                pos + rw,
            ));
            assert(body.subrange(row * t + rw, (row as int + 1) * t) =~= input@.subrange(
                pos + rw,
                pos + t,
            ));
            assert(out@ =~= old(out)@ + grey_region(body, rw, pad, row as int + 1));
        }
        pos = pos + row_total;
        row = row + 1;
    }
    proof {
        lemma_mul_inequality(height as int, height as int, t);
    }
    Ok(pos)
}

} // verus!
