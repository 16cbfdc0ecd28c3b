//! Fixed-width rendering of the consolidated table.
//!
//! The report is one header line — the label `date` centred in eight
//! columns, then one seven-column field per band, `<band>MHz` right-aligned
//! in six columns behind one separating space — followed by one line per
//! date in ascending order: the eight-digit date label, then one
//! right-aligned six-column count per band behind one separating space,
//! in header order. Every line ends with a line feed.

use vstd::prelude::*;
use crate::table::CountTable;
use crate::table::Row;

verus! {

/// The decimal digits of `n`, most significant first, no padding.
pub open spec fn dec_digits(n: nat) -> Seq<u8>
    decreases n,
{
    if n < 10 {
        seq![(48 + n) as u8]
    } else {
        dec_digits(n / 10).push((48 + n % 10) as u8)
    }
}

/// `s` left-padded with `pad` up to width `w`; a longer `s` is kept whole.
pub open spec fn pad_left(s: Seq<u8>, pad: u8, w: int) -> Seq<u8> {
    if s.len() >= w {
        s
    } else {
        Seq::new((w - s.len()) as nat, |i: int| pad) + s
    }
}

/// One header field: a space, then the band label `<band>MHz` — the band
/// zero-padded to two digits — right-aligned in six columns.
pub open spec fn header_field(b: nat) -> Seq<u8> {
    seq![32u8] + pad_left(pad_left(dec_digits(b), 48, 2), 32, 3) + seq![77u8, 72u8, 122u8]
}

/// The header fields of all bands, in band order.
pub open spec fn header_fields(bands: Seq<u8>) -> Seq<u8>
    decreases bands.len(),
{
    if bands.len() == 0 {
        Seq::empty()
    } else {
        header_fields(bands.drop_last()) + header_field(bands.last() as nat)
    }
}

/// The header line: `date` centred in eight columns, one field per band,
/// a line feed.
pub open spec fn header_line(bands: Seq<u8>) -> Seq<u8> {
    seq![32u8, 32u8, 100u8, 97u8, 116u8, 101u8, 32u8, 32u8] + header_fields(bands) + seq![10u8]
}

/// One count field: a space, then the count right-aligned in six columns.
pub open spec fn count_field(c: nat) -> Seq<u8> {
    seq![32u8] + pad_left(dec_digits(c), 32, 6)
}

/// The count fields of one row, in stored (band) order.
pub open spec fn count_fields(counts: Seq<(u8, usize)>) -> Seq<u8>
    decreases counts.len(),
{
    if counts.len() == 0 {
        Seq::empty()
    } else {
        count_fields(counts.drop_last()) + count_field(counts.last().1 as nat)
    }
}

/// One table line: the date zero-padded to eight digits, the row's count
/// fields, a line feed.
pub open spec fn row_line(r: Row) -> Seq<u8> {
    pad_left(dec_digits(r.date as nat), 48, 8) + count_fields(r.counts@) + seq![10u8]
}

/// The table lines of all rows, in row (date) order.
pub open spec fn row_lines(rows: Seq<Row>) -> Seq<u8>
    decreases rows.len(),
{
    if rows.len() == 0 {
        Seq::empty()
    } else {
        row_lines(rows.drop_last()) + row_line(rows.last())
    }
}

/// The whole report: the header line, then one line per date.
pub open spec fn render_spec(rows: Seq<Row>, bands: Seq<u8>) -> Seq<u8> {
    header_line(bands) + row_lines(rows)
}

/// The decimal digits of `n` as bytes, most significant first.
fn dec_vec(n: u64) -> (v: Vec<u8>)
    ensures
        v@ == dec_digits(n as nat),
    decreases n,
{
    if n < 10 {
        let mut v: Vec<u8> = Vec::new();
        v.push(48 + (n as u8));
        proof {
            assert(v@ =~= dec_digits(n as nat));
        }
        v
    } else {
        let mut v = dec_vec(n / 10);
        v.push(48 + ((n % 10) as u8));
        proof {
            assert(v@ =~= dec_digits(n as nat));
        }
        v
    }
}

/// Appends `s`, left-padded with `pad` to width `width`, to `out`.
#[verifier::loop_isolation(false)]
fn pad_append(out: &mut Vec<u8>, s: Vec<u8>, pad: u8, width: usize)
    ensures
        final(out)@ == old(out)@ + pad_left(s@, pad, width as int),
{
    let ghost base = out@;
    let ghost s0 = s@;
    let slen = s.len();
    let mut k: usize = slen;
    while k < width
        invariant
            slen <= k,
            k <= width || k == slen,
            out@ == base + Seq::new((k - slen) as nat, |i: int| pad),
        decreases width - k,
    {
        out.push(pad);
        proof {
            assert(out@ =~= base + Seq::new((k + 1 - slen) as nat, |i: int| pad));
        }
        k = k + 1;
    }
    let mut s = s;
    out.append(&mut s);
    proof {
        if slen >= width {
            assert(out@ =~= base + pad_left(s0, pad, width as int));
        } else {
            assert(out@ =~= base + pad_left(s0, pad, width as int));
        }
    }
}

/// Appends one header field for band `b`.
fn push_band_field(out: &mut Vec<u8>, b: u8)
    ensures
        final(out)@ == old(out)@ + header_field(b as nat),
{
    let ghost base = out@;
    out.push(32);
    let digits = dec_vec(b as u64);
    let mut label: Vec<u8> = Vec::new();
    pad_append(&mut label, digits, 48, 2);
    proof {
        assert(label@ =~= pad_left(dec_digits(b as nat), 48, 2));
    }
    pad_append(out, label, 32, 3);
    out.push(77);
    out.push(72);
    out.push(122);
    proof {
        assert(out@ =~= base + header_field(b as nat));
    }
}

/// Appends one count field for count `c`.
fn push_count_field(out: &mut Vec<u8>, c: usize)
    ensures
        final(out)@ == old(out)@ + count_field(c as nat),
{
    let ghost base = out@;
    out.push(32);
    let digits = dec_vec(c as u64);
    pad_append(out, digits, 32, 6);
    proof {
        assert(out@ =~= base + count_field(c as nat));
    }
}

/// Renders the table as the fixed-width report: the header line built
/// from `bands`, then one line per date in stored order.
#[verifier::loop_isolation(false)]
pub fn render(table: &CountTable, bands: &Vec<u8>) -> (out: Vec<u8>)
    ensures
        out@ == render_spec(table.rows@, bands@),
{
    let mut out: Vec<u8> = Vec::new();
    out.push(32);
    out.push(32);
    out.push(100);
    out.push(97);
    out.push(116);
    out.push(101);
    out.push(32);
    out.push(32);
    let ghost head = seq![32u8, 32u8, 100u8, 97u8, 116u8, 101u8, 32u8, 32u8];
    proof {
        assert(out@ =~= head);
    }
    let bl = bands.len();
    let mut j: usize = 0;
    while j < bl
        invariant
            j <= bl,
            out@ == head + header_fields(bands@.take(j as int)),
        decreases bl - j,
    {
        push_band_field(&mut out, bands[j]);
        proof {
            assert(bands@.take(j + 1).drop_last() =~= bands@.take(j as int));
            assert(bands@.take(j + 1).last() == bands@[j as int]);
            assert(out@ =~= head + header_fields(bands@.take(j + 1)));
        }
        j = j + 1;
    }
    out.push(10);
    proof {
        assert(bands@.take(bl as int) =~= bands@);
        assert(out@ =~= header_line(bands@));
    }
    let n = table.rows.len();
    let mut i: usize = 0;
    while i < n
        invariant
            i <= n,
            out@ == header_line(bands@) + row_lines(table.rows@.take(i as int)),
        decreases n - i,
    {
        let ghost line_base = out@;
        let date = table.rows[i].date;
        let digits = dec_vec(date as u64);
        pad_append(&mut out, digits, 48, 8);
        let m = table.rows[i].counts.len();
        let mut k: usize = 0;
        while k < m
            invariant
                k <= m,
                i < n,
                m == table.rows@[i as int].counts@.len(),
                out@ == line_base + pad_left(dec_digits(table.rows@[i as int].date as nat), 48, 8)
                    + count_fields(table.rows@[i as int].counts@.take(k as int)),
            decreases m - k,
        {
            push_count_field(&mut out, table.rows[i].counts[k].1);
            proof {
                let cs = table.rows@[i as int].counts@;
                assert(cs.take(k + 1).drop_last() =~= cs.take(k as int));
                assert(cs.take(k + 1).last() == cs[k as int]);
                assert(out@ =~= line_base + pad_left(
                    dec_digits(table.rows@[i as int].date as nat),
                    48,
                    8,
                ) + count_fields(cs.take(k + 1)));
            }
            k = k + 1;
        }
        out.push(10);
        proof {
            let cs = table.rows@[i as int].counts@;
            assert(cs.take(m as int) =~= cs);
            assert(out@ =~= line_base + row_line(table.rows@[i as int]));
            assert(table.rows@.take(i + 1).drop_last() =~= table.rows@.take(i as int));
            assert(table.rows@.take(i + 1).last() == table.rows@[i as int]);
            assert(out@ =~= header_line(bands@) + row_lines(table.rows@.take(i + 1)));
        }
        i = i + 1;
    }
    proof {
        assert(table.rows@.take(n as int) =~= table.rows@);
    }
    out
}

} // verus!