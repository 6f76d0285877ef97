//! The record codec: grids to and from the flat byte layout of a dense file.
//!
//! A file is a run of records with no header or separator. One record is
//! `example_size` data values of `data_width` bytes each, followed by one
//! label value of `label_width` bytes; each value is stored least-significant
//! byte first (see `bytes`). Widths are configurable from 1 to 8 bytes and
//! must be supplied identically when reading as when writing.

use vstd::prelude::*;
use crate::bytes::{le_bytes, le_value, le_encode_push, le_decode};
use crate::bytes::{lemma_le_value_bound, lemma_pow256_8, lemma_pow256_mono};
use crate::error::DenseError;
use crate::grid::{Grid, grid_seq, grid_width, rows_of};
use vstd::arithmetic::div_mod::lemma_fundamental_div_mod;

verus! {

/// A byte width that the format supports: 1 to 8 bytes.
pub open spec fn width_ok(w: int) -> bool {
    1 <= w <= 8
}

/// The number of bytes of one record.
pub open spec fn record_size(example_size: nat, data_width: nat, label_width: nat) -> nat {
    example_size * data_width + label_width
}

/// The stored form of one row of data values, each in `w` bytes.
pub open spec fn row_bytes(row: Seq<u64>, w: nat) -> Seq<u8>
    decreases row.len(),
{
    if row.len() == 0 {
        Seq::empty()
    } else {
        le_bytes(row[0] as nat, w) + row_bytes(row.drop_first(), w)
    }
}

/// The stored form of one record: the data row, then the label.
pub open spec fn record_bytes(row: Seq<u64>, label: u64, dw: nat, lw: nat) -> Seq<u8> {
    row_bytes(row, dw) + le_bytes(label as nat, lw)
}

/// The whole file: the records of all rows in order, concatenated.
pub open spec fn encode_bytes(data: Seq<Seq<u64>>, labels: Seq<u64>, dw: nat, lw: nat) -> Seq<u8>
    decreases data.len(),
{
    if data.len() == 0 {
        Seq::empty()
    } else {
        record_bytes(data[0], labels[0], dw, lw) + encode_bytes(
            data.drop_first(),
            labels.drop_first(),
            dw,
            lw,
        )
    }
}

/// The single column of a label grid as a flat sequence.
pub open spec fn labels_column(l: Seq<Seq<u64>>) -> Seq<u64> {
    Seq::new(l.len(), |i: int| l[i][0])
}

/// The data value at row `i`, column `j` of a stored file.
pub open spec fn data_cell(
    bytes: Seq<u8>,
    example_size: nat,
    dw: nat,
    lw: nat,
    i: int,
    j: int,
) -> u64 {
    let rs = record_size(example_size, dw, lw) as int;
    le_value(bytes.subrange(i * rs + j * dw, i * rs + j * dw + dw)) as u64
}

/// The label value of row `i` of a stored file.
pub open spec fn label_cell(bytes: Seq<u8>, example_size: nat, dw: nat, lw: nat, i: int) -> u64 {
    let rs = record_size(example_size, dw, lw) as int;
    le_value(bytes.subrange(i * rs + example_size * dw, i * rs + rs)) as u64
}

/// The data grid that a stored file denotes.
pub open spec fn decode_rows(bytes: Seq<u8>, example_size: nat, dw: nat, lw: nat) -> Seq<Seq<u64>> {
    Seq::new(
        bytes.len() / record_size(example_size, dw, lw),
        |i: int| Seq::new(example_size, |j: int| data_cell(bytes, example_size, dw, lw, i, j)),
    )
}

/// The label grid (one column per row) that a stored file denotes.
pub open spec fn decode_label_rows(
    bytes: Seq<u8>,
    example_size: nat,
    dw: nat,
    lw: nat,
) -> Seq<Seq<u64>> {
    Seq::new(
        bytes.len() / record_size(example_size, dw, lw),
        |i: int| seq![label_cell(bytes, example_size, dw, lw, i)],
    )
}

/// A stored row grows by one value's bytes at a time.
pub proof fn lemma_row_bytes_snoc(row: Seq<u64>, w: nat, j: int)
    requires
        0 <= j < row.len(),
    ensures
        row_bytes(row.take(j + 1), w) == row_bytes(row.take(j), w) + le_bytes(row[j] as nat, w),
    decreases j,
{
    if j == 0 {
        assert(row.take(1).drop_first() =~= row.take(0));
        assert(row_bytes(row.take(0), w) =~= Seq::<u8>::empty());
        assert(row_bytes(row.take(1), w) =~= row_bytes(row.take(0), w) + le_bytes(
            row[0] as nat,
            w,
        ));
    } else {
        let tail = row.drop_first();
        lemma_row_bytes_snoc(tail, w, j - 1);
        assert(row.take(j + 1).drop_first() =~= tail.take(j));
        assert(row.take(j).drop_first() =~= tail.take(j - 1));
        assert(row.take(j + 1)[0] == row[0]);
        assert(row.take(j)[0] == row[0]);
        assert(tail[j - 1] == row[j]);
        assert(row_bytes(row.take(j + 1), w) =~= row_bytes(row.take(j), w) + le_bytes(
            row[j] as nat,
            w,
        ));
    }
}

/// A stored file grows by one record at a time.
pub proof fn lemma_encode_snoc(data: Seq<Seq<u64>>, labels: Seq<u64>, dw: nat, lw: nat, i: int)
    requires
        0 <= i < data.len(),
        labels.len() == data.len(),
    ensures
        encode_bytes(data.take(i + 1), labels.take(i + 1), dw, lw) == encode_bytes(
            data.take(i),
            labels.take(i),
            dw,
            lw,
        ) + record_bytes(data[i], labels[i], dw, lw),
    decreases i,
{
    if i == 0 {
        assert(data.take(1).drop_first() =~= data.take(0));
        assert(labels.take(1).drop_first() =~= labels.take(0));
        assert(encode_bytes(data.take(0), labels.take(0), dw, lw) =~= Seq::<u8>::empty());
        assert(encode_bytes(data.take(1), labels.take(1), dw, lw) =~= encode_bytes(
            data.take(0),
            labels.take(0),
            dw,
            lw,
        ) + record_bytes(data[0], labels[0], dw, lw));
    } else {
        let dtail = data.drop_first();
        let ltail = labels.drop_first();
        lemma_encode_snoc(dtail, ltail, dw, lw, i - 1);
        assert(data.take(i + 1).drop_first() =~= dtail.take(i));
        assert(labels.take(i + 1).drop_first() =~= ltail.take(i));
        assert(data.take(i).drop_first() =~= dtail.take(i - 1));
        assert(labels.take(i).drop_first() =~= ltail.take(i - 1));
        assert(data.take(i + 1)[0] == data[0]);
        assert(data.take(i)[0] == data[0]);
        assert(labels.take(i + 1)[0] == labels[0]);
        assert(labels.take(i)[0] == labels[0]);
        assert(dtail[i - 1] == data[i]);
        assert(ltail[i - 1] == labels[i]);
        assert(encode_bytes(data.take(i + 1), labels.take(i + 1), dw, lw) =~= encode_bytes(
            data.take(i),
            labels.take(i),
            dw,
            lw,
        ) + record_bytes(data[i], labels[i], dw, lw));
    }
}

/// A stored row of `k` values takes exactly `k * w` bytes.
pub proof fn lemma_row_bytes_len(row: Seq<u64>, w: nat)
    ensures
        row_bytes(row, w).len() == row.len() * w,
    decreases row.len(),
{
    if row.len() > 0 {
        lemma_row_bytes_len(row.drop_first(), w);
        assert((row.len() - 1) * w + w == row.len() * w) by (nonlinear_arith);
    }
}

/// The size law: a file of `n` records of `example_size` data values takes
/// exactly `n * (example_size * dw + lw)` bytes.
pub proof fn lemma_encode_len(
    data: Seq<Seq<u64>>,
    labels: Seq<u64>,
    example_size: nat,
    dw: nat,
    lw: nat,
)
    requires
        labels.len() == data.len(),
        forall|i: int| 0 <= i < data.len() ==> (#[trigger] data[i]).len() == example_size,
    ensures
        encode_bytes(data, labels, dw, lw).len() == data.len() * record_size(
            example_size,
            dw,
            lw,
        ),
    decreases data.len(),
{
    if data.len() > 0 {
        let dtail = data.drop_first();
        let ltail = labels.drop_first();
        assert(forall|i: int|
            0 <= i < dtail.len() ==> (#[trigger] dtail[i]).len() == example_size) by {
            assert(forall|i: int|
                0 <= i < dtail.len() ==> dtail[i] == #[trigger] data[i + 1]);
        }
        lemma_encode_len(dtail, ltail, example_size, dw, lw);
        lemma_row_bytes_len(data[0], dw);
        assert((data.len() - 1) * record_size(example_size, dw, lw) + record_size(
            example_size,
            dw,
            lw,
        ) == data.len() * record_size(example_size, dw, lw)) by (nonlinear_arith);
    }
}

/// Serializes the data grid and the label grid into the dense-file byte
/// layout: record after record, each row's values, then its label.
///
/// Fails, writing nothing, when a width is outside 1..=8, when the two grids
/// do not have the same number of rows, or when the label grid does not have
/// exactly one column.
pub fn encode(data: &Grid, labels: &Grid, data_width: usize, label_width: usize) -> (r: Result<
    Vec<u8>,
    DenseError,
>)
    ensures
        r is Ok <==> (width_ok(data_width as int) && width_ok(label_width as int) && grid_seq(
            *data,
        ).len() == grid_seq(*labels).len() && grid_width(*labels) == 1),
        r matches Ok(bytes) ==> bytes@ == encode_bytes(
            grid_seq(*data),
            labels_column(grid_seq(*labels)),
            data_width as nat,
            label_width as nat,
        ) && bytes@.len() == grid_seq(*data).len() * record_size(
            grid_width(*data),
            data_width as nat,
            label_width as nat,
        ),
        r == Err::<Vec<u8>, DenseError>(DenseError::WidthOutOfRange) <==> !(width_ok(
            data_width as int,
        ) && width_ok(label_width as int)),
        r == Err::<Vec<u8>, DenseError>(DenseError::RowCountMismatch) <==> (width_ok(
            data_width as int,
        ) && width_ok(label_width as int) && grid_seq(*data).len() != grid_seq(*labels).len()),
        r == Err::<Vec<u8>, DenseError>(DenseError::LabelColumns) <==> (width_ok(
            data_width as int,
        ) && width_ok(label_width as int) && grid_seq(*data).len() == grid_seq(*labels).len()
            && grid_width(*labels) != 1),
{
    if data_width < 1 || data_width > 8 || label_width < 1 || label_width > 8 {
        return Err(DenseError::WidthOutOfRange);
    }
    let n = data.nrows();
    if n != labels.nrows() {
        return Err(DenseError::RowCountMismatch);
    }
    if labels.ncols() != 1 {
        return Err(DenseError::LabelColumns);
    }
    let es = data.ncols();
    let ghost gdata = grid_seq(*data);
    let ghost glabels = labels_column(grid_seq(*labels));
    let mut out: Vec<u8> = Vec::new();
    let mut i: usize = 0;
    while i < n
        invariant
            i <= n,
            1 <= data_width <= 8,
            1 <= label_width <= 8,
            gdata == grid_seq(*data),
            glabels == labels_column(grid_seq(*labels)),
            n as nat == gdata.len(),
            n as nat == grid_seq(*labels).len(),
            es as nat == grid_width(*data),
            grid_width(*labels) == 1,
            forall|r: int|
                0 <= r < gdata.len() ==> (#[trigger] gdata[r]).len() == grid_width(*data),
            forall|r: int|
                0 <= r < grid_seq(*labels).len() ==> (#[trigger] grid_seq(*labels)[r]).len() == 1,
            out@ == encode_bytes(
                gdata.take(i as int),
                glabels.take(i as int),
                data_width as nat,
                label_width as nat,
            ),
        decreases n - i,
    {
        let mut j: usize = 0;
        while j < es
            invariant
                i < n,
                j <= es,
                1 <= data_width <= 8,
                1 <= label_width <= 8,
                gdata == grid_seq(*data),
                glabels == labels_column(grid_seq(*labels)),
                n as nat == gdata.len(),
                es as nat == grid_width(*data),
                forall|r: int|
                    0 <= r < gdata.len() ==> (#[trigger] gdata[r]).len() == grid_width(*data),
                out@ == encode_bytes(
                    gdata.take(i as int),
                    glabels.take(i as int),
                    data_width as nat,
                    label_width as nat,
                ) + row_bytes(gdata[i as int].take(j as int), data_width as nat),
            decreases es - j,
        {
            let x = data.get(i, j);
            le_encode_push(&mut out, x, data_width);
            proof {
                lemma_row_bytes_snoc(gdata[i as int], data_width as nat, j as int);
            }
            j = j + 1;
        }
        let lab = labels.get(i, 0);
        le_encode_push(&mut out, lab, label_width);
        proof {
            assert(gdata[i as int].take(es as int) =~= gdata[i as int]);
            assert(glabels[i as int] == lab);
            lemma_encode_snoc(gdata, glabels, data_width as nat, label_width as nat, i as int);
            assert(out@ == encode_bytes(
                gdata.take(i as int),
                glabels.take(i as int),
                data_width as nat,
                label_width as nat,
            ) + record_bytes(gdata[i as int], glabels[i as int], data_width as nat,
            label_width as nat));
        }
        i = i + 1;
    }
    proof {
        assert(gdata.take(n as int) =~= gdata);
        assert(glabels.take(n as int) =~= glabels);
        lemma_encode_len(
            gdata,
            glabels,
            grid_width(*data),
            data_width as nat,
            label_width as nat,
        );
    }
    Ok(out)
}

/// Parses the dense-file byte layout back into a data grid and a label grid.
///
/// The caller supplies the same `example_size`, `data_width` and
/// `label_width` that were used to write the bytes: the format stores no
/// self-description. Fails when a width is outside 1..=8, or when the buffer
/// does not partition evenly into records. The size bounds in `requires` are
/// machine limits only: one row of decoded `u64` cells, and the decoded
/// grids themselves, must be small enough to allocate.
pub fn decode(bytes: &Vec<u8>, example_size: usize, data_width: usize, label_width: usize) -> (r:
    Result<(Grid, Grid), DenseError>)
    requires
        16 * example_size <= usize::MAX,
        16 * bytes@.len() <= usize::MAX,
    ensures
        r is Ok <==> (width_ok(data_width as int) && width_ok(label_width as int) && bytes@.len()
            % record_size(example_size as nat, data_width as nat, label_width as nat) == 0),
        r == Err::<(Grid, Grid), DenseError>(DenseError::WidthOutOfRange) <==> !(width_ok(
            data_width as int,
        ) && width_ok(label_width as int)),
        r == Err::<(Grid, Grid), DenseError>(DenseError::LengthNotDivisible) <==> (width_ok(
            data_width as int,
        ) && width_ok(label_width as int) && bytes@.len() % record_size(
            example_size as nat,
            data_width as nat,
            label_width as nat,
        ) != 0),
        r matches Ok((d, l)) ==> {
            let n = bytes@.len() / record_size(
                example_size as nat,
                data_width as nat,
                label_width as nat,
            );
            &&& grid_seq(d) == decode_rows(
                bytes@,
                example_size as nat,
                data_width as nat,
                label_width as nat,
            )
            &&& grid_seq(d).len() == n
            &&& grid_width(d) == example_size as nat
            &&& grid_seq(l) == decode_label_rows(
                bytes@,
                example_size as nat,
                data_width as nat,
                label_width as nat,
            )
            &&& grid_seq(l).len() == n
            &&& grid_width(l) == 1
        },
{
    let ghost es = example_size as nat;
    let ghost dw = data_width as nat;
    let ghost lw = label_width as nat;
    if data_width < 1 || data_width > 8 || label_width < 1 || label_width > 8 {
        return Err(DenseError::WidthOutOfRange);
    }
    proof {
        assert(example_size * data_width <= 8 * example_size) by (nonlinear_arith)
            requires
                0 <= example_size,
                data_width <= 8,
        ;
    }
    let data_len: usize = example_size * data_width;
    let rs: usize = data_len + label_width;
    assert(rs as nat == record_size(es, dw, lw));
    let len = bytes.len();
    if len % rs != 0 {
        return Err(DenseError::LengthNotDivisible);
    }
    let n = len / rs;
    proof {
        lemma_fundamental_div_mod(len as int, rs as int);
        assert(len as int == rs as int * (n as int));
        assert(n as int <= rs as int * (n as int)) by (nonlinear_arith)
            requires
                1 <= rs as int,
                0 <= n as int,
        ;
    }
    let mut flat: Vec<u64> = Vec::new();
    let mut lab: Vec<u64> = Vec::new();
    let mut i: usize = 0;
    while i < n
        invariant
            i <= n,
            1 <= data_width <= 8,
            1 <= label_width <= 8,
            es == example_size as nat,
            dw == data_width as nat,
            lw == label_width as nat,
            data_len == example_size * data_width,
            rs == data_len + label_width,
            rs as nat == record_size(es, dw, lw),
            len == bytes@.len(),
            len as int == rs as int * (n as int),
            16 * example_size <= usize::MAX,
            16 * len <= usize::MAX,
            n <= len,
            flat@.len() == i * (example_size as int),
            lab@.len() == i as int,
            forall|r: int, c: int|
                0 <= r < i && 0 <= c < example_size ==> flat@[r * (example_size as int) + c]
                    == #[trigger] data_cell(bytes@, es, dw, lw, r, c),
            forall|r: int| 0 <= r < i ==> lab@[r] == #[trigger] label_cell(bytes@, es, dw, lw, r),
        decreases n - i,
    {
        proof {
            assert(i as int * (rs as int) + rs as int <= n as int * (rs as int))
                by (nonlinear_arith)
                requires
                    0 <= i as int,
                    (i as int) < n as int,
                    0 <= rs as int,
            ;
            assert(n as int * (rs as int) == rs as int * (n as int)) by (nonlinear_arith);
        }
        let base: usize = i * rs;
        let mut j: usize = 0;
        while j < example_size
            invariant
                i < n,
                j <= example_size,
                1 <= data_width <= 8,
                1 <= label_width <= 8,
                es == example_size as nat,
                dw == data_width as nat,
                lw == label_width as nat,
                data_len == example_size * data_width,
                rs == data_len + label_width,
                rs as nat == record_size(es, dw, lw),
                len == bytes@.len(),
                len as int == rs as int * (n as int),
                base == i * rs,
                base + rs <= len,
                flat@.len() == i * (example_size as int) + j,
                forall|r: int, c: int|
                    0 <= r < i && 0 <= c < example_size ==> flat@[r * (example_size as int) + c]
                        == #[trigger] data_cell(bytes@, es, dw, lw, r, c),
                forall|c: int|
                    0 <= c < j ==> flat@[i * (example_size as int) + c] == #[trigger] data_cell(
                        bytes@,
                        es,
                        dw,
                        lw,
                        i as int,
                        c,
                    ),
            decreases example_size - j,
        {
            proof {
                assert(j as int * (data_width as int) + data_width as int <= example_size as int
                    * (data_width as int)) by (nonlinear_arith)
                    requires
                        0 <= j as int,
                        (j as int) < example_size as int,
                        0 <= data_width as int,
                ;
            }
            let start: usize = base + j * data_width;
            let x = le_decode(bytes, start, data_width);
            proof {
                let cell = data_cell(bytes@, es, dw, lw, i as int, j as int);
                lemma_le_value_bound(
                    bytes@.subrange(start as int, start as int + data_width as int),
                );
                lemma_pow256_mono(dw, 8);
                lemma_pow256_8();
                assert(x == cell);
            }
            flat.push(x);
            proof {
                assert forall|r: int, c: int| 0 <= r < i && 0 <= c < example_size implies flat@[r
                    * (example_size as int) + c] == #[trigger] data_cell(bytes@, es, dw, lw, r, c) by {
                    assert(r * (example_size as int) + c < i * (example_size as int))
                        by (nonlinear_arith)
                        requires
                            0 <= r,
                            r < i as int,
                            0 <= c,
                            c < example_size as int,
                    ;
                }
            }
            j = j + 1;
        }
        let lstart: usize = base + data_len;
        let lx = le_decode(bytes, lstart, label_width);
        proof {
            let cell = label_cell(bytes@, es, dw, lw, i as int);
            lemma_le_value_bound(
                bytes@.subrange(lstart as int, lstart as int + label_width as int),
            );
            lemma_pow256_mono(lw, 8);
            lemma_pow256_8();
            assert(lx == cell);
        }
        lab.push(lx);
        proof {
            assert forall|r: int, c: int| 0 <= r < i + 1 && 0 <= c < example_size implies flat@[r
                * (example_size as int) + c] == #[trigger] data_cell(bytes@, es, dw, lw, r, c) by {
                if r == i {
                    assert(i as int * (example_size as int) + c < (i + 1) * (example_size as int))
                        by (nonlinear_arith)
                        requires
                            0 <= c,
                            c < example_size as int,
                    ;
                } else {
                    assert(r * (example_size as int) + c < i * (example_size as int))
                        by (nonlinear_arith)
                        requires
                            0 <= r,
                            r < i as int,
                            0 <= c,
                            c < example_size as int,
                    ;
                }
            }
            assert((i + 1) * (example_size as int) == i * (example_size as int) + (
            example_size as int)) by (nonlinear_arith);
        }
        i = i + 1;
    }
    let ghost fseq = flat@;
    let ghost lseq = lab@;
    let dgrid = match Grid::from_flat(n, example_size, flat) {
        Ok(g) => g,
        Err(e) => {
            proof {
                assert(false);
            }
            return Err(e);
        },
    };
    let lgrid = match Grid::from_flat(n, 1, lab) {
        Ok(g) => g,
        Err(e) => {
            proof {
                assert(false);
            }
            return Err(e);
        },
    };
    proof {
        assert(rows_of(fseq, n as nat, es) =~~= decode_rows(bytes@, es, dw, lw)) by {
            assert forall|r: int| 0 <= r < n implies rows_of(fseq, n as nat, es)[r] =~= decode_rows(
                bytes@,
                es,
                dw,
                lw,
            )[r] by {
                assert(r * (es as int) + es as int <= n as int * (es as int)) by (nonlinear_arith)
                    requires
                        0 <= r,
                        r < n as int,
                        0 <= es as int,
                ;
                assert forall|c: int| 0 <= c < es implies fseq.subrange(
                    r * (es as int),
                    r * (es as int) + es as int,
                )[c] == #[trigger] data_cell(bytes@, es, dw, lw, r, c) by {
                    assert(fseq[r * (es as int) + c] == data_cell(bytes@, es, dw, lw, r, c));
                }
            }
        }
        assert(rows_of(lseq, n as nat, 1) =~~= decode_label_rows(bytes@, es, dw, lw)) by {
            assert forall|r: int| 0 <= r < n implies rows_of(lseq, n as nat, 1)[r]
                =~= decode_label_rows(bytes@, es, dw, lw)[r] by {
                assert(lseq[r] == label_cell(bytes@, es, dw, lw, r));
            }
        }
    }
    Ok((dgrid, lgrid))
}

} // verus!
