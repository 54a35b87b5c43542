use minimizers::canonical::{
    canonical_kmers, canonical_minimizer, canonical_minimizer_lanes, complement_of, pick_strand, rc_kmer_direct,
    record_hashes, reverse_complement_of, rotate_back1, CanonicalRecord, Strand,
};
use minimizers::error::InvalidParameter;
use minimizers::hash::{encode_ascii, hash_kmer_direct};

fn codes(text: &str) -> Vec<u8> {
    encode_ascii(&text.as_bytes().to_vec())
}

fn bases(len: usize, seed: u64) -> Vec<u8> {
    let mut state: u64 = seed;
    let mut out: Vec<u8> = Vec::new();
    for _ in 0..len {
        state = state.wrapping_mul(6364136223846793005).wrapping_add(1442695040888963407);
        out.push(((state >> 33) % 4) as u8);
    }
    out
}

#[test]
fn complement_pairs_a_with_t_and_c_with_g() {
    assert_eq!(complement_of(0), 2);
    assert_eq!(complement_of(2), 0);
    assert_eq!(complement_of(1), 3);
    assert_eq!(complement_of(3), 1);
    assert_eq!(complement_of(6), 0);
}

#[test]
fn reverse_complement_exact() {
    assert_eq!(reverse_complement_of(&codes("ACGGTT")), codes("AACCGT"));
    assert_eq!(reverse_complement_of(&codes("ACGT")), codes("ACGT"));
    assert_eq!(
        reverse_complement_of(&codes("ACGTACGGTT")),
        vec![0, 0, 1, 1, 3, 2, 0, 1, 3, 2]
    );
    assert_eq!(reverse_complement_of(&Vec::new()), Vec::<u8>::new());
}

#[test]
fn rotation_back_undoes_rotation() {
    assert_eq!(rotate_back1(1), 0x8000_0000_0000_0000);
    assert_eq!(rotate_back1(6), 3);
    assert_eq!(rotate_back1(0xb13a_5314_100f_646c), 0xb13a_5314_100f_646cu64.rotate_right(1));
}

#[test]
fn reverse_strand_hash_is_the_hash_of_the_reverse_complement() {
    let seq = codes("AAC");
    assert_eq!(hash_kmer_direct(&seq, 0, 3), 0xbaabd82c1e343274);
    assert_eq!(rc_kmer_direct(&seq, 0, 3), 0xfb37215dd57a406a);
    let rc = reverse_complement_of(&seq);
    assert_eq!(rc_kmer_direct(&seq, 0, 3), hash_kmer_direct(&rc, 0, 3));
}

#[test]
fn the_forward_strand_wins_a_tie() {
    assert_eq!(pick_strand(5, 5), CanonicalRecord { hash: 5, strand: Strand::Forward });
    assert_eq!(pick_strand(5, 6), CanonicalRecord { hash: 5, strand: Strand::Forward });
    assert_eq!(pick_strand(6, 5), CanonicalRecord { hash: 5, strand: Strand::Reverse });
    let own = canonical_kmers(&codes("ACGT"), 4).unwrap();
    assert_eq!(
        own,
        vec![CanonicalRecord { hash: 0x4b21efdd6bfc8c8f, strand: Strand::Forward }]
    );
}

#[test]
fn canonical_stream_exact() {
    let records = canonical_kmers(&codes("ACGTACGGTT"), 3).unwrap();
    assert_eq!(
        record_hashes(&records),
        vec![
            0xaf7e3241c5ccaf2e,
            0xaf7e3241c5ccaf2e,
            0xedd1113766a532fc,
            0xedd1113766a532fc,
            0xaf7e3241c5ccaf2e,
            0x855abbcfcd97d88c,
            0xa09bac41f0f86c04,
            0xbaabd82c1e343274
        ]
    );
    assert_eq!(records[0].strand, Strand::Reverse);
    assert_eq!(records[1].strand, Strand::Forward);
}

#[test]
fn rolled_strand_hashes_match_direct_ones() {
    let seq = bases(200, 41);
    for k in [1usize, 2, 9, 32, 64] {
        let records = canonical_kmers(&seq, k).unwrap();
        assert_eq!(records.len(), seq.len() - k + 1);
        for i in 0..records.len() {
            let f = hash_kmer_direct(&seq, i, k);
            let r = rc_kmer_direct(&seq, i, k);
            assert_eq!(records[i], pick_strand(f, r));
        }
    }
}

#[test]
fn canonical_minimizers_exact() {
    let got = canonical_minimizer(&codes("ACGTACGGTT"), 3, 2).unwrap();
    assert_eq!(
        got,
        vec![
            (0, 0xaf7e3241c5ccaf2e),
            (1, 0xaf7e3241c5ccaf2e),
            (2, 0xedd1113766a532fc),
            (4, 0xaf7e3241c5ccaf2e),
            (5, 0x855abbcfcd97d88c),
            (5, 0x855abbcfcd97d88c),
            (6, 0xa09bac41f0f86c04),
        ]
    );
}

#[test]
fn canonical_minimizers_mirror_on_the_other_strand() {
    for (len, k, w) in [(10usize, 3usize, 2usize), (120, 7, 5), (200, 21, 11)] {
        let seq = bases(len, 1000 + len as u64);
        let rc = reverse_complement_of(&seq);
        let here = canonical_minimizer(&seq, k, w).unwrap();
        let there = canonical_minimizer(&rc, k, w).unwrap();
        assert_eq!(here.len(), there.len());
        let hashes = record_hashes(&canonical_kmers(&seq, k).unwrap());
        let count = here.len();
        for i in 0..count {
            let start = count - 1 - i;
            let (p, v) = here[start];
            assert_eq!(there[i].1, v);
            let ties = (start..start + w).filter(|j| hashes[*j] == v).count();
            if ties == 1 {
                assert_eq!(there[i].0, len - k - p);
            }
        }
    }
}

#[test]
fn canonical_mirror_worked_example() {
    let seq = codes("ACGTACGGTT");
    let there = canonical_minimizer(&reverse_complement_of(&seq), 3, 2).unwrap();
    assert_eq!(
        there,
        vec![
            (1, 0xa09bac41f0f86c04),
            (2, 0x855abbcfcd97d88c),
            (2, 0x855abbcfcd97d88c),
            (3, 0xaf7e3241c5ccaf2e),
            (4, 0xedd1113766a532fc),
            (6, 0xaf7e3241c5ccaf2e),
            (6, 0xaf7e3241c5ccaf2e),
        ]
    );
}

#[test]
fn canonical_parameters_are_checked() {
    let seq = codes("ACGTACGGTT");
    assert_eq!(canonical_kmers(&seq, 0), Err(InvalidParameter::ZeroK));
    assert_eq!(canonical_kmers(&seq, 65), Err(InvalidParameter::KTooLarge));
    assert_eq!(canonical_kmers(&seq, 11), Err(InvalidParameter::KExceedsLength));
    assert_eq!(canonical_minimizer(&seq, 3, 0), Err(InvalidParameter::ZeroW));
    assert_eq!(canonical_minimizer(&seq, 0, 1), Err(InvalidParameter::ZeroK));
    assert_eq!(canonical_minimizer(&seq, 11, 1), Err(InvalidParameter::KExceedsLength));
    assert_eq!(canonical_minimizer(&seq, 9, 5).unwrap().len(), 0);
}

#[test]
fn canonical_lanes_match_the_single_pass() {
    for (len, k, w) in [(10usize, 3usize, 2usize), (97, 5, 4), (230, 21, 11), (30, 30, 1)] {
        let seq = bases(len, 5 + len as u64);
        let single = canonical_minimizer(&seq, k, w).unwrap();
        for lanes in [1usize, 2, 3, 4, 9, 400] {
            assert_eq!(canonical_minimizer_lanes(&seq, k, w, lanes).unwrap(), single);
        }
    }
    let seq = codes("ACGTACGGTT");
    assert_eq!(canonical_minimizer_lanes(&seq, 3, 2, 0), Err(InvalidParameter::ZeroLanes));
    assert_eq!(canonical_minimizer_lanes(&seq, 3, 0, 2), Err(InvalidParameter::ZeroW));
    assert_eq!(canonical_minimizer_lanes(&seq, 0, 2, 2), Err(InvalidParameter::ZeroK));
    assert_eq!(canonical_minimizer_lanes(&seq, 65, 2, 2), Err(InvalidParameter::KTooLarge));
    assert_eq!(canonical_minimizer_lanes(&seq, 11, 2, 2), Err(InvalidParameter::KExceedsLength));
}
