//! Encode/decode behaviour on concrete grids.

use dense::{decode, encode, DenseError, Grid};

fn grid(rows: usize, cols: usize, values: Vec<u64>) -> Grid {
    Grid::from_flat(rows, cols, values).unwrap()
}

#[test]
fn round_trip_small() {
    let data = grid(4, 2, vec![0, 0, 1, 0, 0, 1, 1, 1]);
    let labels = grid(4, 1, vec![0, 1, 1, 0]);
    let bytes = encode(&data, &labels, 1, 1).unwrap();
    assert_eq!(bytes.len(), 12);
    assert_eq!(bytes, vec![0, 0, 0, 1, 0, 1, 0, 1, 1, 1, 1, 0]);
    let (rdata, rlabels) = decode(&bytes, 2, 1, 1).unwrap();
    assert!(rdata.same_as(&data));
    assert!(rlabels.same_as(&labels));
    assert_eq!(rdata.nrows(), 4);
    assert_eq!(rdata.ncols(), 2);
    assert_eq!(rlabels.nrows(), 4);
    assert_eq!(rlabels.ncols(), 1);
    assert_eq!(rdata.get(1, 0), 1);
    assert_eq!(rdata.get(2, 1), 1);
    assert_eq!(rlabels.get(3, 0), 0);
}

#[test]
fn multi_byte_little_endian() {
    let data = grid(1, 1, vec![0x0102]);
    let labels = grid(1, 1, vec![0xA1B2]);
    let bytes = encode(&data, &labels, 3, 2).unwrap();
    assert_eq!(bytes, vec![0x02, 0x01, 0x00, 0xB2, 0xA1]);
    let (rdata, rlabels) = decode(&bytes, 1, 3, 2).unwrap();
    assert!(rdata.same_as(&data));
    assert!(rlabels.same_as(&labels));
}

#[test]
fn eight_byte_values() {
    let big = u64::MAX - 1;
    let data = grid(2, 1, vec![big, 7]);
    let labels = grid(2, 1, vec![u64::MAX, 0]);
    let bytes = encode(&data, &labels, 8, 8).unwrap();
    assert_eq!(bytes.len(), 2 * 16);
    let (rdata, rlabels) = decode(&bytes, 1, 8, 8).unwrap();
    assert!(rdata.same_as(&data));
    assert!(rlabels.same_as(&labels));
    assert_eq!(rdata.get(0, 0), big);
    assert_eq!(rlabels.get(0, 0), u64::MAX);
}

#[test]
fn size_law() {
    let data = grid(3, 2, vec![9, 8, 7, 6, 5, 4]);
    let labels = grid(3, 1, vec![1, 2, 3]);
    let bytes = encode(&data, &labels, 3, 2).unwrap();
    assert_eq!(bytes.len(), 3 * (2 * 3 + 2));
}

#[test]
fn large_scale() {
    // 10,000 examples of 784 one-byte values plus a 1-byte label each.
    let rows = 10_000;
    let cols = 784;
    let mut values: Vec<u64> = Vec::with_capacity(rows * cols);
    for i in 0..rows {
        for j in 0..cols {
            values.push(((i + j) % 256) as u64);
        }
    }
    let mut label_values: Vec<u64> = Vec::with_capacity(rows);
    for i in 0..rows {
        label_values.push((i % 10) as u64);
    }
    let data = grid(rows, cols, values);
    let labels = grid(rows, 1, label_values);
    let bytes = encode(&data, &labels, 1, 1).unwrap();
    assert_eq!(bytes.len(), 10_000 * 785);
    let (rdata, rlabels) = decode(&bytes, cols, 1, 1).unwrap();
    assert_eq!(rdata.nrows(), rows);
    assert_eq!(rdata.ncols(), cols);
    assert_eq!(rlabels.nrows(), rows);
    assert_eq!(rlabels.ncols(), 1);
    assert!(rdata.same_as(&data));
    assert!(rlabels.same_as(&labels));
}

#[test]
fn divisibility_error() {
    // Record size is 3; eleven bytes cannot split into records.
    let bytes: Vec<u8> = vec![0; 11];
    let r = decode(&bytes, 2, 1, 1);
    assert_eq!(r.unwrap_err(), DenseError::LengthNotDivisible);
}

#[test]
fn divisibility_error_wrong_parameters() {
    // Twelve bytes written with record size 3 do not split with record size 5.
    let data = grid(4, 2, vec![0, 0, 1, 0, 0, 1, 1, 1]);
    let labels = grid(4, 1, vec![0, 1, 1, 0]);
    let bytes = encode(&data, &labels, 1, 1).unwrap();
    let r = decode(&bytes, 2, 2, 1);
    assert_eq!(r.unwrap_err(), DenseError::LengthNotDivisible);
}

#[test]
fn row_count_mismatch() {
    let data = grid(2, 2, vec![1, 2, 3, 4]);
    let labels = grid(1, 1, vec![9]);
    let r = encode(&data, &labels, 1, 1);
    assert_eq!(r.unwrap_err(), DenseError::RowCountMismatch);
}

#[test]
fn width_bounds() {
    let data = grid(1, 1, vec![1]);
    let labels = grid(1, 1, vec![2]);
    assert_eq!(encode(&data, &labels, 0, 1).unwrap_err(), DenseError::WidthOutOfRange);
    assert_eq!(encode(&data, &labels, 1, 9).unwrap_err(), DenseError::WidthOutOfRange);
    assert_eq!(encode(&data, &labels, 9, 1).unwrap_err(), DenseError::WidthOutOfRange);
    let bytes: Vec<u8> = vec![0, 1, 2];
    assert_eq!(decode(&bytes, 1, 0, 1).unwrap_err(), DenseError::WidthOutOfRange);
    assert_eq!(decode(&bytes, 1, 1, 0).unwrap_err(), DenseError::WidthOutOfRange);
    assert_eq!(decode(&bytes, 1, 9, 1).unwrap_err(), DenseError::WidthOutOfRange);
}

#[test]
fn label_grid_must_have_one_column() {
    let data = grid(2, 2, vec![1, 2, 3, 4]);
    let labels = grid(2, 2, vec![5, 6, 7, 8]);
    let r = encode(&data, &labels, 1, 1);
    assert_eq!(r.unwrap_err(), DenseError::LabelColumns);
}

#[test]
fn high_bytes_are_dropped() {
    // A value wider than the chosen width keeps only its low bytes.
    let data = grid(1, 1, vec![0x1FF]);
    let labels = grid(1, 1, vec![0x305]);
    let bytes = encode(&data, &labels, 1, 1).unwrap();
    assert_eq!(bytes, vec![0xFF, 0x05]);
    let (rdata, rlabels) = decode(&bytes, 1, 1, 1).unwrap();
    assert_eq!(rdata.get(0, 0), 0xFF);
    assert_eq!(rlabels.get(0, 0), 0x05);
}

#[test]
fn empty_grids() {
    let data = grid(0, 3, vec![]);
    let labels = grid(0, 1, vec![]);
    let bytes = encode(&data, &labels, 2, 1).unwrap();
    assert_eq!(bytes.len(), 0);
    let (rdata, rlabels) = decode(&bytes, 3, 2, 1).unwrap();
    assert_eq!(rdata.nrows(), 0);
    assert_eq!(rdata.ncols(), 3);
    assert_eq!(rlabels.nrows(), 0);
    assert_eq!(rlabels.ncols(), 1);
}
