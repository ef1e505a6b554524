//! Runtime checks of the range-check gadget model: the table, the running
//! sum, the witness region and the constraint checker.

use range_decompose::bits::{lebs2ip, to_le_bits, truncate};
use range_decompose::constraints::is_satisfied;
use range_decompose::decompose::{AssignPhase, DecomposeConfig};
use range_decompose::field::Fe;
use range_decompose::region::AssignedCell;
use range_decompose::table::RangeTableConfig;

/// An odd 64-bit prime, large enough that every test value embeds exactly.
const M: u64 = 0xFFFF_FFFF_0000_0001;

fn witness(value: u64) -> AssignedCell {
    AssignedCell { offset: 0, value: Fe::from_u64(M, value) }
}

#[test]
fn test_decompose_3() {
    // value 154 declared as an 8-bit value, split into 3-bit chunks
    let config = DecomposeConfig::configure(3, 8).unwrap();
    let (region, z_final) = config.assign(witness(154), 8);
    let rows = config.table.load();
    assert!(is_satisfied(&region, &rows, 3, M));
    assert_eq!(z_final.value.v, 0);
}

#[test]
fn test_running_sum_values() {
    // 154 is 10011010 in binary: chunks low-to-high [2, 3, 2], a partial
    // length of 2, final chunk 2, shifted 2 * 2^(3-2) = 4, and (3, 4) is a
    // table row; the terminal element is 0.
    let config = DecomposeConfig::configure(3, 8).unwrap();
    let (region, z_final) = config.assign(witness(154), 8);
    // column: value, z_1 = (154-2)/8, z_2 = (19-3)/8, z_3 = (2-2)/8,
    // then the shifted chunk and the 2^-2 constant
    assert_eq!(region.column.len(), 6);
    assert_eq!(region.column[0].v, 154);
    assert_eq!(region.column[1].v, 19);
    assert_eq!(region.column[2].v, 2);
    assert_eq!(region.column[3].v, 0);
    assert_eq!(region.column[4].v, 4);
    assert_eq!(z_final.offset, 3);
    assert_eq!(z_final.value.v, 0);
    // the witnessed 2^-2 constant really inverts 4
    let inv = region.column[5];
    assert_eq!((inv.v as u128 * 4u128 % M as u128) as u64, 1);
    let rows = config.table.load();
    assert!(rows.contains(&(3, 4)));
    assert!(is_satisfied(&region, &rows, 3, M));
}

#[test]
fn test_boundary_exact() {
    // 9 bits with 3-bit chunks: no partial stage, and still zero at the end
    let config = DecomposeConfig::configure(3, 8).unwrap();
    let (region, z_final) = config.assign(witness(154), 9);
    assert_eq!(region.column.len(), 4);
    assert!(region.q_partial_check.iter().all(|q| !q));
    assert_eq!(z_final.value.v, 0);
    let rows = config.table.load();
    assert!(is_satisfied(&region, &rows, 3, M));
}

#[test]
fn test_dishonest_rejected() {
    // 300 does not fit 8 bits: the terminal element is nonzero and the
    // region fails the checker
    let config = DecomposeConfig::configure(3, 8).unwrap();
    let (region, z_final) = config.assign(witness(300), 8);
    assert_ne!(z_final.value.v, 0);
    let rows = config.table.load();
    assert!(!is_satisfied(&region, &rows, 3, M));
}

#[test]
fn test_tampered_witness_rejected() {
    let config = DecomposeConfig::configure(3, 8).unwrap();
    let (mut region, _) = config.assign(witness(154), 8);
    let rows = config.table.load();
    assert!(is_satisfied(&region, &rows, 3, M));
    // corrupt one running-sum cell: some constraint must now fail
    region.column[1] = Fe::from_u64(M, 20);
    assert!(!is_satisfied(&region, &rows, 3, M));
}

#[test]
fn test_table_rows() {
    // the 3-bit table: the sentinel, then every value under its bit length
    let table = RangeTableConfig::configure(3, 8).unwrap();
    let rows = table.load();
    let expected: Vec<(u64, u64)> = vec![
        (1, 0),
        (1, 1),
        (2, 2),
        (2, 3),
        (3, 4),
        (3, 5),
        (3, 6),
        (3, 7),
    ];
    assert_eq!(rows, expected);
    assert_eq!(rows.len(), 8);
}

#[test]
fn test_table_rebuild() {
    // loading twice yields identical row sequences
    let table = RangeTableConfig::configure(4, 16).unwrap();
    let first = table.load();
    let second = table.load();
    assert_eq!(first, second);
    assert_eq!(first.len(), 16);
}

#[test]
fn test_configure_rejects_wrong_size() {
    assert!(RangeTableConfig::configure(3, 9).is_err());
    assert!(RangeTableConfig::configure(3, 7).is_err());
    assert!(RangeTableConfig::configure(64, 0).is_err());
    assert!(RangeTableConfig::configure(3, 8).is_ok());
    assert!(DecomposeConfig::configure(0, 1).is_err());
    assert!(DecomposeConfig::configure(10, 1024).is_ok());
}

#[test]
fn test_field_ops() {
    let a = Fe::from_u64(7, 12);
    assert_eq!(a.v, 5);
    let b = Fe::from_u64(7, 3);
    assert_eq!(a.plus(b).v, 1);
    assert_eq!(b.minus(a).v, 5);
    assert_eq!(a.times(b).v, 1);
    assert_eq!(Fe::zero(7).v, 0);
    assert_eq!(Fe::one(7).v, 1);
    // the inverse of 2 modulo 7 is 4
    let inv2 = Fe::inv_two_pow(7, 1);
    assert_eq!(inv2.v, 4);
    // the inverse of 2^10 modulo M really multiplies back to 1
    let inv = Fe::inv_two_pow(M, 10);
    let back = inv.times(Fe::from_u64(M, 1 << 10));
    assert_eq!(back.v, 1);
}

#[test]
fn test_lebs2ip() {
    // 154 little-endian over 8 bits
    let bits = vec![false, true, false, true, true, false, false, true];
    assert_eq!(lebs2ip(&bits), 154);
    assert_eq!(lebs2ip(&[]), 0);
    assert_eq!(lebs2ip(&[true]), 1);
    assert_eq!(lebs2ip(&[false, false, true]), 4);
}

#[test]
fn test_to_le_bits() {
    let bits = to_le_bits(154, 8);
    assert_eq!(bits, vec![false, true, false, true, true, false, false, true]);
    assert_eq!(to_le_bits(154, 3), vec![false, true, false]);
    assert_eq!(lebs2ip(&to_le_bits(300, 8)), 300 % 256);
}

#[test]
fn test_truncate() {
    assert_eq!(truncate(300, 8), 44);
    assert_eq!(truncate(154, 8), 154);
    assert_eq!(truncate(u64::MAX, 64), u64::MAX);
    assert_eq!(truncate(u64::MAX, 1), 1);
}

#[test]
fn test_phase_order() {
    // with a partial chunk, every phase is visited in order
    let walk = [
        AssignPhase::Idle,
        AssignPhase::TableLoaded,
        AssignPhase::ValueCopiedIn,
        AssignPhase::RunningSumAssigned,
        AssignPhase::FinalZeroAsserted,
        AssignPhase::PartialChunkAsserted,
        AssignPhase::Done,
    ];
    for pair in walk.windows(2) {
        assert_eq!(pair[0].next(true), Some(pair[1]));
    }
    // without one, the partial step is skipped
    assert_eq!(
        AssignPhase::FinalZeroAsserted.next(false),
        Some(AssignPhase::Done)
    );
    assert_eq!(AssignPhase::Done.next(true), None);
    assert_eq!(AssignPhase::Done.next(false), None);
}

#[test]
fn test_large_value() {
    // a value near the top of the modelled range, with a 4-bit partial chunk
    let config = DecomposeConfig::configure(10, 1024).unwrap();
    let value = (1u64 << 62) + 12345;
    let (region, z_final) = config.assign(witness(value), 64);
    assert_eq!(region.column.len(), 10);
    assert_eq!(z_final.value.v, 0);
    let rows = config.table.load();
    assert!(is_satisfied(&region, &rows, 10, M));
}

#[test]
fn test_copy_constraint_recorded() {
    // copying the witnessed value in registers an equality constraint
    let config = DecomposeConfig::configure(3, 8).unwrap();
    let cell = witness(154);
    let (region, _) = config.assign(cell, 8);
    assert_eq!(region.copies.len(), 1);
    assert_eq!(region.copies[0].0.v, 154);
    assert_eq!(region.copies[0].1, 0);
    assert_eq!(region.column[0].v, 154);
}

#[test]
fn test_single_chunk_value() {
    // a 2-bit declaration with 3-bit chunks: one partial chunk only
    let config = DecomposeConfig::configure(3, 8).unwrap();
    let (region, z_final) = config.assign(witness(2), 2);
    assert_eq!(z_final.value.v, 0);
    // the shifted chunk is 2 * 2^(3-2) = 4
    assert_eq!(region.column[2].v, 4);
    let rows = config.table.load();
    assert!(is_satisfied(&region, &rows, 3, M));
}
