use minimizers::error::InvalidParameter;
use minimizers::lanes::{hash_kmers_lanes, hash_kmers_packed, minimizers, minimizers_packed};
use minimizers::packed::PackedSequence;
use minimizers::session::{hash_kmers_with, RollingHasher};
use minimizers::hash::{
    base_seed, encode_ascii, hash_kmer_direct, hash_kmers, hash_kmers_buffered, leaving_table,
    rotate, rotate1, SEED_A, SEED_C, SEED_G, SEED_T,
};

fn codes(text: &str) -> Vec<u8> {
    encode_ascii(&text.as_bytes().to_vec())
}

#[test]
fn ascii_bases_get_their_codes() {
    assert_eq!(codes("ACGT"), vec![0, 1, 3, 2]);
    assert_eq!(codes("acgt"), vec![0, 1, 3, 2]);
    assert_eq!(codes(""), Vec::<u8>::new());
}

#[test]
fn other_bytes_are_masked() {
    // 'N' is 0x4e: (0x4e / 2) % 4 == 3.
    assert_eq!(codes("N"), vec![3]);
    assert_eq!(encode_ascii(&vec![0u8, 255u8]), vec![0, 3]);
}

#[test]
fn seeds_of_the_four_bases() {
    assert_eq!(base_seed(0), SEED_A);
    assert_eq!(base_seed(1), SEED_C);
    assert_eq!(base_seed(2), SEED_T);
    assert_eq!(base_seed(3), SEED_G);
    assert_eq!(base_seed(4), SEED_A);
    assert_eq!(base_seed(7), SEED_G);
}

#[test]
fn rotation_by_one_wraps_the_top_bit() {
    assert_eq!(rotate1(1), 2);
    assert_eq!(rotate1(0x8000_0000_0000_0000), 1);
    assert_eq!(rotate1(0x8000_0000_0000_0001), 3);
}

#[test]
fn rotation_by_r_is_the_std_rotation() {
    let x: u64 = 0x3c8b_fbb3_95c6_0474;
    for r in 0..130usize {
        assert_eq!(rotate(x, r), x.rotate_left((r % 64) as u32));
    }
}

#[test]
fn leaving_table_holds_rotated_seeds() {
    let t = leaving_table(21);
    assert_eq!(
        t,
        vec![
            SEED_A.rotate_left(21),
            SEED_C.rotate_left(21),
            SEED_T.rotate_left(21),
            SEED_G.rotate_left(21)
        ]
    );
}

#[test]
fn hash_of_short_kmers_exact() {
    assert_eq!(hash_kmer_direct(&codes("A"), 0, 1), SEED_A);
    assert_eq!(hash_kmer_direct(&codes("AC"), 0, 2), 0x4884_36e2_492c_23a4);
    assert_eq!(hash_kmer_direct(&codes("ACG"), 0, 3), 0xb13a_5314_100f_646c);
    assert_eq!(hash_kmer_direct(&codes("ACG"), 1, 0), 0);
}

#[test]
fn hash_stream_exact() {
    let got = hash_kmers(&codes("ACGTACGGTT"), 3).unwrap();
    assert_eq!(
        got,
        vec![
            0xb13a5314100f646c,
            0xaf7e3241c5ccaf2e,
            0xeee9931b0b5e0048,
            0xedd1113766a532fc,
            0xb13a5314100f646c,
            0xa61945640c79c85c,
            0xe9f9cf1646108e8e,
            0xfb37215dd57a406a
        ]
    );
}

#[test]
fn incremental_hash_matches_direct_hash() {
    let seq = codes("ACGTACGTAC");
    let k = 4;
    let rolled = hash_kmers(&seq, k).unwrap();
    assert_eq!(rolled.len(), seq.len() - k + 1);
    for i in 0..=(seq.len() - k) {
        assert_eq!(rolled[i], hash_kmer_direct(&seq, i, k));
    }
    assert_eq!(rolled[0], 0x4b21efdd6bfc8c8f);
    assert_eq!(rolled[3], 0xfb901cbe4f1d46dd);
    assert_eq!(rolled[0], rolled[4]);
}

#[test]
fn buffered_hash_matches_scalar_hash() {
    let mut state: u64 = 7;
    let mut seq: Vec<u8> = Vec::new();
    for _ in 0..300 {
        state = state.wrapping_mul(6364136223846793005).wrapping_add(1442695040888963407);
        seq.push((state >> 33) as u8);
    }
    for k in [1usize, 2, 5, 21, 31, 63, 64] {
        let a = hash_kmers(&seq, k).unwrap();
        let b = hash_kmers_buffered(&seq, k).unwrap();
        assert_eq!(a, b);
        assert_eq!(a.len(), seq.len() - k + 1);
        for i in (0..a.len()).step_by(17) {
            assert_eq!(a[i], hash_kmer_direct(&seq, i, k));
        }
    }
}

#[test]
fn widest_kmer_is_hashed() {
    let seq = vec![0u8; 65];
    let got = hash_kmers(&seq, 64).unwrap();
    assert_eq!(got, vec![0xffff_ffff_ffff_ffff, 0xffff_ffff_ffff_ffff]);
}

#[test]
fn a_kmer_of_the_whole_sequence_gives_one_hash() {
    let got = hash_kmers(&codes("ACG"), 3).unwrap();
    assert_eq!(got, vec![0xb13a5314100f646c]);
}

#[test]
fn zero_k_is_rejected() {
    assert_eq!(hash_kmers(&codes("ACGT"), 0), Err(InvalidParameter::ZeroK));
    assert_eq!(hash_kmers_buffered(&codes("ACGT"), 0), Err(InvalidParameter::ZeroK));
    assert_eq!(hash_kmers(&codes(""), 0), Err(InvalidParameter::ZeroK));
}

#[test]
fn k_beyond_the_word_is_rejected() {
    let seq = vec![1u8; 100];
    assert_eq!(hash_kmers(&seq, 65), Err(InvalidParameter::KTooLarge));
    assert_eq!(hash_kmers_buffered(&seq, 65), Err(InvalidParameter::KTooLarge));
    assert_eq!(hash_kmers(&vec![1u8; 3], 65), Err(InvalidParameter::KTooLarge));
}

#[test]
fn k_beyond_the_sequence_is_rejected() {
    assert_eq!(hash_kmers(&codes("ACG"), 4), Err(InvalidParameter::KExceedsLength));
    assert_eq!(hash_kmers_buffered(&codes(""), 1), Err(InvalidParameter::KExceedsLength));
}

#[test]
fn fed_base_by_base_the_hasher_yields_the_stream() {
    let seq = codes("ACGTACGGTT");
    let mut hasher = RollingHasher::new(3).unwrap();
    assert_eq!(hasher.k(), 3);
    assert_eq!(hasher.push(0), None);
    assert_eq!(hasher.push(1), None);
    assert_eq!(hasher.push(3), Some(0xb13a5314100f646c));
    assert_eq!(hasher.push(2), Some(0xaf7e3241c5ccaf2e));
    hasher.reset();
    assert_eq!(hasher.push(0), None);
    assert_eq!(hash_kmers_with(&mut hasher, &seq), hash_kmers(&seq, 3).unwrap());
    // Used again without a reset by the caller: nothing is carried over.
    assert_eq!(hash_kmers_with(&mut hasher, &seq), hash_kmers(&seq, 3).unwrap());
    assert_eq!(hash_kmers_with(&mut hasher, &codes("AC")), Vec::<u64>::new());
    assert_eq!(hasher.push(3), Some(0xb13a5314100f646c));
}

#[test]
fn hasher_ring_wraps_for_every_k() {
    let mut state: u64 = 3;
    let mut seq: Vec<u8> = Vec::new();
    for _ in 0..200 {
        state = state.wrapping_mul(6364136223846793005).wrapping_add(1442695040888963407);
        seq.push(((state >> 33) % 4) as u8);
    }
    for k in [1usize, 2, 3, 8, 21, 64] {
        let mut hasher = RollingHasher::new(k).unwrap();
        assert_eq!(hash_kmers_with(&mut hasher, &seq), hash_kmers(&seq, k).unwrap());
    }
}

#[test]
fn hasher_rejects_bad_k() {
    assert!(matches!(RollingHasher::new(0), Err(InvalidParameter::ZeroK)));
    assert!(matches!(RollingHasher::new(65), Err(InvalidParameter::KTooLarge)));
    assert!(RollingHasher::new(64).is_ok());
}

#[test]
fn lane_hashes_match_the_scalar_stream() {
    let mut state: u64 = 12345;
    let mut seq: Vec<u8> = Vec::new();
    for _ in 0..150 {
        state = state.wrapping_mul(6364136223846793005).wrapping_add(1442695040888963407);
        seq.push(((state >> 33) % 4) as u8);
    }
    for k in [1usize, 4, 21, 64] {
        let scalar = hash_kmers(&seq, k).unwrap();
        for lanes in [1usize, 2, 3, 4, 7, 500] {
            assert_eq!(hash_kmers_lanes(&seq, k, lanes).unwrap(), scalar);
        }
    }
    assert_eq!(hash_kmers_lanes(&seq, 4, 0), Err(InvalidParameter::ZeroLanes));
    assert_eq!(hash_kmers_lanes(&seq, 0, 2), Err(InvalidParameter::ZeroK));
    assert_eq!(hash_kmers_lanes(&seq, 151, 2), Err(InvalidParameter::KTooLarge));
    assert_eq!(hash_kmers_lanes(&codes("ACG"), 4, 2), Err(InvalidParameter::KExceedsLength));
}

#[test]
fn packed_input_gives_the_hashes_of_its_bases() {
    // A C G T A C G G T T with A=0, C=1, T=2, G=3, lowest bits first.
    let bytes: Vec<u8> = vec![0b10_11_01_00, 0b11_11_01_00, 0b0000_10_10];
    let packed = PackedSequence::new(bytes, 10, 0).unwrap();
    assert_eq!(packed.unpack(), codes("ACGTACGGTT"));
    assert_eq!(hash_kmers_packed(&packed, 3), hash_kmers(&codes("ACGTACGGTT"), 3));
    assert_eq!(minimizers_packed(&packed, 3, 2), minimizers(&codes("ACGTACGGTT"), 3, 2));
    assert_eq!(minimizers_packed(&packed, 3, 0), Err(InvalidParameter::ZeroW));
    assert_eq!(hash_kmers_packed(&packed, 11), Err(InvalidParameter::KExceedsLength));
}
