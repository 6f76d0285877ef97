//! The round-trip law: decoding an encoded file reproduces the grids.

use vstd::prelude::*;
use crate::bytes::{le_bytes, lemma_le_round_trip, pow256};
use crate::codec::{
    data_cell,
    decode_label_rows,
    decode_rows,
    encode_bytes,
    label_cell,
    lemma_encode_len,
    lemma_row_bytes_len,
    record_bytes,
    record_size,
    row_bytes,
    width_ok,
};
use vstd::arithmetic::div_mod::{lemma_div_by_multiple, lemma_small_mod};

verus! {

/// Record `i` of a stored file stands at offset `i * record_size`.
pub proof fn lemma_record_at(
    data: Seq<Seq<u64>>,
    labels: Seq<u64>,
    example_size: nat,
    dw: nat,
    lw: nat,
    i: int,
)
    requires
        labels.len() == data.len(),
        forall|r: int| 0 <= r < data.len() ==> (#[trigger] data[r]).len() == example_size,
        0 <= i < data.len(),
    ensures
        encode_bytes(data, labels, dw, lw).subrange(
            i * record_size(example_size, dw, lw),
            i * record_size(example_size, dw, lw) + record_size(example_size, dw, lw),
        ) == record_bytes(data[i], labels[i], dw, lw),
    decreases i,
{
    let rs = record_size(example_size, dw, lw) as int;
    let eb = encode_bytes(data, labels, dw, lw);
    lemma_encode_len(data, labels, example_size, dw, lw);
    lemma_row_bytes_len(data[0], dw);
    assert(record_bytes(data[0], labels[0], dw, lw).len() == rs);
    assert((i + 1) * rs <= data.len() * rs) by (nonlinear_arith)
        requires
            0 <= i,
            i < data.len(),
            0 <= rs,
    ;
    assert((i + 1) * rs == i * rs + rs) by (nonlinear_arith);
    if i == 0 {
        assert(eb.subrange(0, rs) =~= record_bytes(data[0], labels[0], dw, lw));
    } else {
        let dtail = data.drop_first();
        let ltail = labels.drop_first();
        assert(forall|r: int|
            0 <= r < dtail.len() ==> (#[trigger] dtail[r]).len() == example_size) by {
            assert(forall|r: int| 0 <= r < dtail.len() ==> dtail[r] == #[trigger] data[r + 1]);
        }
        lemma_record_at(dtail, ltail, example_size, dw, lw, i - 1);
        assert((i - 1) * rs == i * rs - rs) by (nonlinear_arith);
        assert(dtail[i - 1] == data[i]);
        assert(ltail[i - 1] == labels[i]);
        assert(eb.subrange(i * rs, i * rs + rs) =~= encode_bytes(dtail, ltail, dw, lw).subrange(
            (i - 1) * rs,
            (i - 1) * rs + rs,
        ));
    }
}

/// Value `j` of a stored row stands at offset `j * w`.
pub proof fn lemma_row_cell(row: Seq<u64>, w: nat, j: int)
    requires
        0 <= j < row.len(),
    ensures
        row_bytes(row, w).subrange(j * w, j * w + w) == le_bytes(row[j] as nat, w),
    decreases j,
{
    lemma_row_bytes_len(row, w);
    assert((j + 1) * w <= row.len() * w) by (nonlinear_arith)
        requires
            0 <= j,
            j < row.len(),
            0 <= w as int,
    ;
    assert((j + 1) * w == j * w + w) by (nonlinear_arith);
    if j == 0 {
        assert(row_bytes(row, w).subrange(0, w as int) =~= le_bytes(row[0] as nat, w));
    } else {
        let tail = row.drop_first();
        lemma_row_cell(tail, w, j - 1);
        lemma_row_bytes_len(tail, w);
        assert((j - 1) * w == j * w - w) by (nonlinear_arith);
        assert(tail[j - 1] == row[j]);
        assert(row_bytes(row, w).subrange(j * w, j * w + w) =~= row_bytes(tail, w).subrange(
            (j - 1) * w,
            (j - 1) * w + w,
        ));
    }
}

/// The round-trip law: for grids of matching row count whose values fit the
/// chosen byte widths, decoding an encoded file gives back exactly the same
/// data rows and the same labels, in the same order.
pub proof fn lemma_round_trip(
    data: Seq<Seq<u64>>,
    labels: Seq<u64>,
    example_size: nat,
    dw: nat,
    lw: nat,
)
    requires
        width_ok(dw as int),
        width_ok(lw as int),
        labels.len() == data.len(),
        forall|r: int| 0 <= r < data.len() ==> (#[trigger] data[r]).len() == example_size,
        forall|r: int, c: int|
            0 <= r < data.len() && 0 <= c < example_size ==> (#[trigger] data[r][c] as nat)
                < pow256(dw),
        forall|r: int| 0 <= r < labels.len() ==> (#[trigger] labels[r] as nat) < pow256(lw),
    ensures
        decode_rows(encode_bytes(data, labels, dw, lw), example_size, dw, lw) == data,
        decode_label_rows(encode_bytes(data, labels, dw, lw), example_size, dw, lw) == Seq::new(
            labels.len(),
            |i: int| seq![labels[i]],
        ),
{
    let rs = record_size(example_size, dw, lw);
    let eb = encode_bytes(data, labels, dw, lw);
    lemma_encode_len(data, labels, example_size, dw, lw);
    lemma_div_by_multiple(data.len() as int, rs as int);
    assert(eb.len() / rs == data.len());
    assert forall|r: int| 0 <= r < data.len() implies eb.subrange(
        r * (rs as int),
        r * (rs as int) + rs as int,
    ) == record_bytes(data[r], labels[r], dw, lw) by {
        lemma_record_at(data, labels, example_size, dw, lw, r);
    }
    assert(decode_rows(eb, example_size, dw, lw) =~~= data) by {
        assert forall|r: int| 0 <= r < data.len() implies decode_rows(eb, example_size, dw, lw)[r]
            =~= data[r] by {
            let record = record_bytes(data[r], labels[r], dw, lw);
            lemma_row_bytes_len(data[r], dw);
            assert forall|c: int| 0 <= c < example_size implies #[trigger] data_cell(
                eb,
                example_size,
                dw,
                lw,
                r,
                c,
            ) == data[r][c] by {
                assert((c + 1) * dw <= example_size * dw) by (nonlinear_arith)
                    requires
                        0 <= c,
                        c < example_size as int,
                        0 <= dw as int,
                ;
                assert((c + 1) * dw == c * dw + dw) by (nonlinear_arith);
                assert(eb.subrange(r * (rs as int), r * (rs as int) + rs as int) == record);
                assert((r + 1) * (rs as int) <= data.len() * (rs as int)) by (nonlinear_arith)
                    requires
                        0 <= r,
                        r < data.len(),
                        0 <= rs as int,
                ;
                assert((r + 1) * (rs as int) == r * (rs as int) + rs as int) by (nonlinear_arith);
                assert(eb.subrange(
                    r * (rs as int) + c * (dw as int),
                    r * (rs as int) + c * (dw as int) + dw as int,
                ) =~= record.subrange(c * (dw as int), c * (dw as int) + dw as int));
                lemma_row_cell(data[r], dw, c);
                assert(record.subrange(c * (dw as int), c * (dw as int) + dw as int) =~= row_bytes(
                    data[r],
                    dw,
                ).subrange(c * (dw as int), c * (dw as int) + dw as int));
                lemma_le_round_trip(data[r][c] as nat, dw);
                lemma_small_mod(data[r][c] as nat, pow256(dw));
            }
        }
    }
    assert(decode_label_rows(eb, example_size, dw, lw) =~~= Seq::new(
        labels.len(),
        |i: int| seq![labels[i]],
    )) by {
        assert forall|r: int| 0 <= r < labels.len() implies decode_label_rows(
            eb,
            example_size,
            dw,
            lw,
        )[r] =~= seq![labels[r]] by {
            let record = record_bytes(data[r], labels[r], dw, lw);
            lemma_row_bytes_len(data[r], dw);
            assert(eb.subrange(r * (rs as int), r * (rs as int) + rs as int) == record);
            assert((r + 1) * (rs as int) <= data.len() * (rs as int)) by (nonlinear_arith)
                requires
                    0 <= r,
                    r < data.len(),
                    0 <= rs as int,
            ;
            assert((r + 1) * (rs as int) == r * (rs as int) + rs as int) by (nonlinear_arith);
            assert(eb.subrange(
                r * (rs as int) + (example_size * dw) as int,
                r * (rs as int) + rs as int,
            ) =~= record.subrange((example_size * dw) as int, rs as int));
            assert(record.subrange((example_size * dw) as int, rs as int) =~= le_bytes(
                labels[r] as nat,
                lw,
            ));
            lemma_le_round_trip(labels[r] as nat, lw);
            lemma_small_mod(labels[r] as nat, pow256(lw));
            assert(label_cell(eb, example_size, dw, lw, r) == labels[r]);
        }
    }
}

} // verus!
