//! The plain-text image layout: header `P3`, the dimensions and the
//! channel ceiling, then one `r g b` line per pixel, rows as given
//! (`render` already hands them over in top-to-bottom output order).

use vstd::prelude::*;

verus! {

/// The decimal digits of `n`, most significant first (for `n >= 0`).
pub open spec fn dec_bytes(n: int) -> Seq<u8>
    decreases n,
{
    if n < 10 {
        seq![(48 + n) as u8]
    } else {
        dec_bytes(n / 10).push((48 + n % 10) as u8)
    }
}

/// One pixel line: `r g b` and a newline.
pub open spec fn pixel_bytes(p: (u8, u8, u8)) -> Seq<u8> {
    dec_bytes(p.0 as int) + seq![32u8] + dec_bytes(p.1 as int) + seq![32u8] + dec_bytes(
        p.2 as int) + seq![10u8]
}

/// One row of pixel lines, left to right.
pub open spec fn row_bytes(row: Seq<(u8, u8, u8)>) -> Seq<u8>
    decreases row.len(),
{
    if row.len() == 0 {
        Seq::empty()
    } else {
        row_bytes(row.drop_last()) + pixel_bytes(row.last())
    }
}

/// All rows, in the order given.
pub open spec fn body_bytes(rows: Seq<Seq<(u8, u8, u8)>>) -> Seq<u8>
    decreases rows.len(),
{
    if rows.len() == 0 {
        Seq::empty()
    } else {
        body_bytes(rows.drop_last()) + row_bytes(rows.last())
    }
}

/// The header: `P3`, a line with the dimensions and the ceiling 255.
pub open spec fn ppm_header(w: int, h: int) -> Seq<u8> {
    seq![80u8, 51u8, 10u8] + dec_bytes(w) + seq![32u8] + dec_bytes(h) + seq![
        32u8,
        50u8,
        53u8,
        53u8,
        10u8,
    ]
}

/// The whole image file.
pub open spec fn ppm_spec(rows: Seq<Seq<(u8, u8, u8)>>, w: int, h: int) -> Seq<u8> {
    ppm_header(w, h) + body_bytes(rows)
}

/// Appends the decimal digits of `n`.
fn push_dec(out: &mut Vec<u8>, n: u64)
    requires
        n <= 1_000_000,
    ensures
        final(out)@ == old(out)@ + dec_bytes(n as int),
    decreases n,
{
    if n < 10 {
        out.push((48 + n) as u8);
        proof {
            assert(out@ =~= old(out)@ + dec_bytes(n as int));
        }
    } else {
        push_dec(out, n / 10);
        out.push(48 + (n % 10) as u8);
        proof {
            assert(out@ =~= old(out)@ + dec_bytes(n as int));
        }
    }
}

/// Lays a quantized image out as the bytes of the plain-text format.
pub fn ppm_bytes(pixels: &Vec<Vec<(u8, u8, u8)>>, width: usize, height: usize) -> (out: Vec<u8>)
    requires
        pixels@.len() == height,
        forall|k: int| 0 <= k < height ==> (#[trigger] pixels@[k]@).len() == width,
        1 <= width <= 4096,
        1 <= height <= 4096,
    ensures
        out@ == ppm_spec(pixels@.map_values(|r: Vec<(u8, u8, u8)>| r@), width as int,
            height as int),
{
    let ghost rv = pixels@.map_values(|r: Vec<(u8, u8, u8)>| r@);
    let mut out: Vec<u8> = Vec::new();
    out.push(80);
    out.push(51);
    out.push(10);
    push_dec(&mut out, width as u64);
    out.push(32);
    push_dec(&mut out, height as u64);
    out.push(32);
    out.push(50);
    out.push(53);
    out.push(53);
    out.push(10);
    proof {
        assert(out@ =~= ppm_header(width as int, height as int));
    }
    let mut jj: usize = 0;
    while jj < pixels.len()
        invariant
            pixels@.len() == height,
            forall|k: int| 0 <= k < height ==> (#[trigger] pixels@[k]@).len() == width,
            rv == pixels@.map_values(|r: Vec<(u8, u8, u8)>| r@),
            jj <= height,
            out@ == ppm_header(width as int, height as int) + body_bytes(rv.take(jj as int)),
        decreases pixels@.len() - jj,
    {
        let row = &pixels[jj];
        let mut i: usize = 0;
        while i < row.len()
            invariant
                pixels@.len() == height,
                forall|k: int| 0 <= k < height ==> (#[trigger] pixels@[k]@).len() == width,
                rv == pixels@.map_values(|r: Vec<(u8, u8, u8)>| r@),
                jj < height,
                row == &pixels[jj as int],
                i <= row@.len(),
                out@ == ppm_header(width as int, height as int) + body_bytes(rv.take(jj as int))
                    + row_bytes(row@.take(i as int)),
            decreases row@.len() - i,
        {
            let p = row[i];
            push_dec(&mut out, p.0 as u64);
            out.push(32);
            push_dec(&mut out, p.1 as u64);
            out.push(32);
            push_dec(&mut out, p.2 as u64);
            out.push(10);
            proof {
                assert(row@.take(i + 1).drop_last() =~= row@.take(i as int));
                assert(row@.take(i + 1).last() == row@[i as int]);
                assert(out@ =~= ppm_header(width as int, height as int) + body_bytes(rv.take(
                jj as int)) + row_bytes(row@.take(i + 1)));
            }
            i = i + 1;
        }
        proof {
            assert(row@.take(row@.len() as int) =~= row@);
            assert(rv.take(jj + 1).drop_last() =~= rv.take(jj as int));
            assert(rv.take(jj + 1).last() == rv[jj as int]);
            assert(rv[jj as int] == row@);
            assert(out@ =~= ppm_header(width as int, height as int) + body_bytes(rv.take(jj + 1)));
        }
        jj = jj + 1;
    }
    proof {
        assert(rv.take(rv.len() as int) =~= rv);
    }
    out
}

} // verus!
