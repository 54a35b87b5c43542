use minimizers::error::{check_hash_parameters, check_minimizer_parameters, InvalidParameter};
use minimizers::packed::{bit_of, PackedSequence};

#[test]
fn bases_come_out_lowest_bits_first() {
    // 0b11_10_01_00: bases 0, 1, 2, 3.
    let seq = PackedSequence::new(vec![0b1110_0100, 0b0000_0110], 6, 0).unwrap();
    assert_eq!(seq.len(), 6);
    assert_eq!(seq.get(0), 0);
    assert_eq!(seq.get(1), 1);
    assert_eq!(seq.get(2), 2);
    assert_eq!(seq.get(3), 3);
    assert_eq!(seq.get(4), 2);
    assert_eq!(seq.get(5), 1);
    assert_eq!(seq.unpack(), vec![0, 1, 2, 3, 2, 1]);
}

#[test]
fn a_start_inside_the_first_base_shifts_every_base() {
    // Bits from bit 1 on: 0b1_0110_010|0 -> bases (bits 1,2)=0b10, (3,4)=0b00, (5,6)=0b11,
    // (7, next 0) = 0b11.
    let seq = PackedSequence::new(vec![0b1110_0100, 0b0000_0001], 4, 1).unwrap();
    assert_eq!(seq.unpack(), vec![2, 0, 3, 3]);
}

#[test]
fn stray_bits_behind_the_last_base_are_ignored() {
    let a = PackedSequence::new(vec![0b1111_0100], 2, 0).unwrap();
    let b = PackedSequence::new(vec![0b0000_0100], 2, 0).unwrap();
    assert_eq!(a.unpack(), vec![0, 1]);
    assert_eq!(a.unpack(), b.unpack());
}

#[test]
fn what_does_not_fit_is_refused() {
    assert!(PackedSequence::new(vec![0u8], 5, 0).is_none());
    assert!(PackedSequence::new(vec![0u8], 4, 1).is_none());
    assert!(PackedSequence::new(vec![0u8], 1, 2).is_none());
    assert!(PackedSequence::new(Vec::new(), 1, 0).is_none());
    assert!(PackedSequence::new(vec![0u8], 4, 0).is_some());
    assert!(PackedSequence::new(vec![0u8], 3, 1).is_some());
    assert!(PackedSequence::new(Vec::new(), 0, 0).is_some());
    assert!(PackedSequence::new(Vec::new(), usize::MAX, 1).is_none());
}

#[test]
fn bits_of_a_byte() {
    assert_eq!(bit_of(0b1000_0001, 0), 1);
    assert_eq!(bit_of(0b1000_0001, 1), 0);
    assert_eq!(bit_of(0b1000_0001, 7), 1);
    assert_eq!(bit_of(0b0010_0000, 5), 1);
}

#[test]
fn parameter_checks_name_the_fault() {
    assert_eq!(check_hash_parameters(1, 1), Ok(()));
    assert_eq!(check_hash_parameters(64, 64), Ok(()));
    assert_eq!(check_hash_parameters(0, 0), Err(InvalidParameter::ZeroK));
    assert_eq!(check_hash_parameters(65, 10), Err(InvalidParameter::KTooLarge));
    assert_eq!(check_hash_parameters(5, 4), Err(InvalidParameter::KExceedsLength));
    assert_eq!(check_minimizer_parameters(5, 1, 5), Ok(()));
    assert_eq!(check_minimizer_parameters(0, 0, 5), Err(InvalidParameter::ZeroW));
    assert_eq!(check_minimizer_parameters(0, 1, 5), Err(InvalidParameter::ZeroK));
}
