//! Similarity of texts and pairing by it.
use git_file_diff::change::{ChangeTag, TokenChange};
use git_file_diff::pairing::pair_by_similarity;
use git_file_diff::similarity::{calculate_similarity_ratio, equal_length, SimilarityRatio};

fn ratio(equal: usize, old_len: usize, new_len: usize) -> SimilarityRatio {
    SimilarityRatio { equal, old_len, new_len }
}

#[test]
fn similarity_counts_the_bytes_of_equal_tokens() {
    assert_eq!(calculate_similarity_ratio("foo bar", "foo baz"), ratio(4, 7, 7));
    assert_eq!(calculate_similarity_ratio("foo", "foo"), ratio(3, 3, 3));
    assert_eq!(calculate_similarity_ratio("foo", "bar"), ratio(0, 3, 3));
    assert_eq!(calculate_similarity_ratio("é é", "é"), ratio(2, 5, 2));
    assert_eq!(calculate_similarity_ratio("", "ab"), ratio(0, 0, 2));
    assert_eq!(calculate_similarity_ratio("", ""), ratio(0, 0, 0));
}

#[test]
fn equal_tokens_are_counted_in_bytes() {
    let changes = vec![
        TokenChange { tag: ChangeTag::Equal, token: "日本" },
        TokenChange { tag: ChangeTag::Delete, token: "xx" },
        TokenChange { tag: ChangeTag::Insert, token: "yyy" },
        TokenChange { tag: ChangeTag::Equal, token: "z" },
    ];
    assert_eq!(equal_length(&changes), 7);
    assert_eq!(equal_length(&vec![]), 0);
}

#[test]
fn half_is_enough() {
    assert!(ratio(1, 2, 2).is_at_least_half());
    assert!(ratio(5, 10, 9).is_at_least_half());
    assert!(!ratio(1, 3, 2).is_at_least_half());
    assert!(!ratio(0, 1, 0).is_at_least_half());
    assert!(ratio(0, 0, 0).is_at_least_half());
}

#[test]
fn ratios_are_ordered_as_fractions() {
    assert!(ratio(3, 4, 4).is_above(&ratio(2, 4, 4)));
    assert!(!ratio(2, 4, 4).is_above(&ratio(1, 2, 2)));
    assert!(!ratio(1, 2, 2).is_above(&ratio(2, 4, 4)));
    assert!(ratio(0, 0, 0).is_above(&ratio(9, 10, 10)));
    assert!(!ratio(10, 10, 10).is_above(&ratio(0, 0, 0)));
    let max = usize::MAX;
    assert!(ratio(max, max, max).is_above(&ratio(max - 1, max, max)));
    assert!(!ratio(max, max, max).is_above(&ratio(max, max, max)));
    assert!(!ratio(max - 1, max, max).is_above(&ratio(max, max, max)));
}

/// The order is the one of the quotients.
#[test]
fn ratios_are_ordered_like_their_quotients() {
    let quotient = |r: &SimilarityRatio| {
        let total = r.old_len + r.new_len;
        if total == 0 {
            1.0
        } else {
            (2.0 * r.equal as f64) / (total as f64)
        }
    };
    let mut ratios = Vec::new();
    for old_len in 0..7 {
        for new_len in 0..7 {
            for equal in 0..=old_len.min(new_len) {
                ratios.push(ratio(equal, old_len, new_len));
            }
        }
    }
    for r in &ratios {
        assert_eq!(r.is_at_least_half(), quotient(r) >= 0.5);
        for s in &ratios {
            assert_eq!(r.is_above(s), quotient(r) > quotient(s));
        }
    }
}

#[test]
fn best_pairs_come_first() {
    let rows = vec![
        vec![ratio(6, 10, 10), ratio(9, 10, 10)],
        vec![ratio(5, 10, 10), ratio(8, 10, 10)],
        vec![ratio(7, 10, 10), ratio(10, 10, 10)],
    ];
    assert_eq!(pair_by_similarity(&rows, 2), [(2, 1), (0, 0)]);
}

#[test]
fn unlike_lines_are_not_paired() {
    let rows = vec![vec![ratio(4, 10, 10), ratio(5, 10, 10)]];
    assert_eq!(pair_by_similarity(&rows, 2), [(0, 1)]);
    let rows = vec![vec![ratio(4, 10, 10), ratio(0, 10, 10)]];
    assert!(pair_by_similarity(&rows, 2).is_empty());
}

#[test]
fn ties_go_by_position() {
    let row = vec![ratio(8, 10, 10), ratio(8, 10, 10), ratio(4, 5, 5)];
    let rows = vec![row.clone(), row];
    assert_eq!(pair_by_similarity(&rows, 3), [(0, 0), (1, 1)]);
}

#[test]
fn nothing_to_pair() {
    assert!(pair_by_similarity(&vec![], 3).is_empty());
    assert!(pair_by_similarity(&vec![vec![], vec![]], 0).is_empty());
}

/// A pair that is not made shares a line with a pair that is at least as similar.
#[test]
fn pairing_is_stable() {
    let mut seed: u32 = 7;
    let mut next = |n: u32| {
        seed = seed.wrapping_mul(1_664_525).wrapping_add(1_013_904_223);
        ((seed >> 16) % n) as usize
    };
    for _ in 0..200 {
        let n_del = next(6);
        let n_add = next(6);
        let rows: Vec<Vec<SimilarityRatio>> =
            (0..n_del).map(|_| (0..n_add).map(|_| ratio(next(11), 10, 10)).collect()).collect();
        let pairs = pair_by_similarity(&rows, n_add);
        for (d, row) in rows.iter().enumerate() {
            for (a, r) in row.iter().enumerate() {
                let made = pairs.contains(&(d, a));
                assert!(!made || r.is_at_least_half());
                let better = pairs
                    .iter()
                    .any(|&(pd, pa)| (pd == d || pa == a) && !r.is_above(&rows[pd][pa]));
                assert!(!r.is_at_least_half() || made || better);
            }
        }
        for (i, p) in pairs.iter().enumerate() {
            for q in &pairs[i + 1..] {
                assert!(p.0 != q.0 && p.1 != q.1);
            }
        }
    }
}
