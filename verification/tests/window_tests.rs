use minimizers::error::InvalidParameter;
use minimizers::window::{
    dedup, jumping_min, scan_window, sliding_min, sliding_min_naive, sliding_min_queue,
    sliding_min_rescan, sliding_min_split, Selector,
};

fn stream(len: usize, seed: u64, modulus: u64) -> Vec<u64> {
    let mut state: u64 = seed;
    let mut out: Vec<u64> = Vec::new();
    for _ in 0..len {
        state = state.wrapping_mul(6364136223846793005).wrapping_add(1442695040888963407);
        out.push((state >> 20) % modulus);
    }
    out
}

fn reference(h: &Vec<u64>, w: usize) -> Vec<(usize, u64)> {
    let mut out: Vec<(usize, u64)> = Vec::new();
    if w == 0 || h.len() < w {
        return out;
    }
    for i in 0..=(h.len() - w) {
        let mut p = i;
        for j in i..(i + w) {
            if h[j] < h[p] {
                p = j;
            }
        }
        out.push((p, h[p]));
    }
    out
}

#[test]
fn window_minima_exact() {
    let h: Vec<u64> = vec![5, 3, 3, 8, 1, 9];
    let want: Vec<(usize, u64)> = vec![(1, 3), (1, 3), (4, 1), (4, 1)];
    assert_eq!(sliding_min_naive(&h, 3), Ok(want.clone()));
    assert_eq!(sliding_min_queue(&h, 3), Ok(want.clone()));
    assert_eq!(sliding_min_split(&h, 3), Ok(want.clone()));
    assert_eq!(sliding_min_rescan(&h, 3), Ok(want));
}

#[test]
fn ties_go_to_the_leftmost() {
    let h: Vec<u64> = vec![4, 4, 4, 4, 4];
    let want: Vec<(usize, u64)> = vec![(0, 4), (1, 4), (2, 4), (3, 4)];
    for alg in [Selector::Naive, Selector::Queue, Selector::Split, Selector::Rescan] {
        assert_eq!(sliding_min(alg, &h, 2), Ok(want.clone()));
    }
    let h: Vec<u64> = vec![2, 7, 2, 7, 2];
    let want: Vec<(usize, u64)> = vec![(0, 2), (2, 2), (2, 2)];
    for alg in [Selector::Naive, Selector::Queue, Selector::Split, Selector::Rescan] {
        assert_eq!(sliding_min(alg, &h, 3), Ok(want.clone()));
    }
}

#[test]
fn all_selectors_agree() {
    for (len, modulus) in [(0usize, 5u64), (1, 5), (7, 3), (64, 4), (200, 1000), (333, 2)] {
        let h = stream(len, 11 + len as u64, modulus);
        for w in 1..=12usize {
            let want = reference(&h, w);
            assert_eq!(sliding_min_naive(&h, w), Ok(want.clone()));
            assert_eq!(sliding_min_queue(&h, w), Ok(want.clone()));
            assert_eq!(sliding_min_split(&h, w), Ok(want.clone()));
            assert_eq!(sliding_min_rescan(&h, w), Ok(want));
        }
    }
}

#[test]
fn selectors_agree_on_monotone_streams() {
    let up: Vec<u64> = (0..50u64).collect();
    let down: Vec<u64> = (0..50u64).rev().collect();
    for w in [1usize, 2, 5, 11, 50] {
        for h in [&up, &down] {
            let want = reference(h, w);
            for alg in [Selector::Naive, Selector::Queue, Selector::Split, Selector::Rescan] {
                assert_eq!(sliding_min(alg, h, w), Ok(want.clone()));
            }
        }
    }
    assert_eq!(sliding_min_queue(&up, 50), Ok(vec![(0, 0)]));
    assert_eq!(sliding_min_split(&down, 50), Ok(vec![(49, 0)]));
}

#[test]
fn window_of_one_reports_every_hash() {
    let h: Vec<u64> = vec![9, 8, 9];
    let want: Vec<(usize, u64)> = vec![(0, 9), (1, 8), (2, 9)];
    for alg in [Selector::Naive, Selector::Queue, Selector::Split, Selector::Rescan] {
        assert_eq!(sliding_min(alg, &h, 1), Ok(want.clone()));
    }
}

#[test]
fn window_longer_than_stream_gives_nothing() {
    let h: Vec<u64> = vec![9, 8, 9];
    for alg in [Selector::Naive, Selector::Queue, Selector::Split, Selector::Rescan] {
        assert_eq!(sliding_min(alg, &h, 4), Ok(Vec::new()));
        assert_eq!(sliding_min(alg, &Vec::new(), 1), Ok(Vec::new()));
    }
}

#[test]
fn zero_window_is_rejected() {
    let h: Vec<u64> = vec![9, 8, 9];
    for alg in [Selector::Naive, Selector::Queue, Selector::Split, Selector::Rescan] {
        assert_eq!(sliding_min(alg, &h, 0), Err(InvalidParameter::ZeroW));
    }
    assert_eq!(sliding_min_naive(&h, 0), Err(InvalidParameter::ZeroW));
    assert_eq!(sliding_min_queue(&h, 0), Err(InvalidParameter::ZeroW));
    assert_eq!(sliding_min_split(&h, 0), Err(InvalidParameter::ZeroW));
    assert_eq!(sliding_min_rescan(&h, 0), Err(InvalidParameter::ZeroW));
    assert_eq!(jumping_min(&h, 0), Err(InvalidParameter::ZeroW));
}

#[test]
fn minimizer_lies_in_its_window() {
    let h = stream(120, 5, 50);
    let w = 7;
    let got = sliding_min_queue(&h, w).unwrap();
    assert_eq!(got.len(), h.len() - w + 1);
    for (i, (p, v)) in got.iter().enumerate() {
        assert!(i <= *p && *p < i + w);
        assert_eq!(*v, h[*p]);
    }
    for i in 1..got.len() {
        assert!(got[i - 1].0 <= got[i].0);
    }
}

#[test]
fn scan_finds_the_leftmost_minimum() {
    let h: Vec<u64> = vec![5, 3, 3, 8, 1, 9];
    assert_eq!(scan_window(&h, 0, 4), 1);
    assert_eq!(scan_window(&h, 1, 2), 1);
    assert_eq!(scan_window(&h, 2, 4), 4);
    assert_eq!(scan_window(&h, 5, 1), 5);
}

#[test]
fn jumping_reports_one_minimum_per_block() {
    let h: Vec<u64> = vec![5, 3, 3, 8, 1, 9, 0];
    assert_eq!(jumping_min(&h, 3), Ok(vec![(1, 3), (4, 1)]));
    assert_eq!(jumping_min(&h, 7), Ok(vec![(6, 0)]));
    assert_eq!(jumping_min(&h, 8), Ok(Vec::new()));
    assert_eq!(jumping_min(&h, 1).unwrap().len(), 7);
}

#[test]
fn dedup_exact() {
    let raw: Vec<(usize, u64)> = vec![(1, 3), (1, 3), (4, 1), (4, 1), (4, 1), (6, 2)];
    assert_eq!(dedup(&raw), vec![(1, 3), (4, 1), (6, 2)]);
    assert_eq!(dedup(&Vec::new()), Vec::new());
    assert_eq!(dedup(&vec![(2, 2)]), vec![(2, 2)]);
}

#[test]
fn dedup_is_idempotent() {
    let h = stream(300, 99, 20);
    for w in [1usize, 3, 8, 30] {
        let raw = sliding_min_queue(&h, w).unwrap();
        let once = dedup(&raw);
        let twice = dedup(&once);
        assert_eq!(once, twice);
        assert!(once.len() <= raw.len());
        for i in 1..once.len() {
            assert!(once[i - 1].0 < once[i].0);
        }
    }
}
