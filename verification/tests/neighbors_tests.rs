use ncd_predict::metric::Ncd;
use ncd_predict::neighbors::count_in;
use ncd_predict::neighbors::k_nearest;
use ncd_predict::neighbors::majority;

fn d(num: u64, den: u64) -> Ncd {
    Ncd { num, den }
}

#[test]
fn nearest_come_first() {
    let scores = vec![d(5, 10), d(1, 10), d(9, 10), d(3, 10), d(7, 10)];
    assert_eq!(k_nearest(&scores, 3), vec![1, 3, 0]);
    assert_eq!(k_nearest(&scores, 1), vec![1]);
    assert_eq!(k_nearest(&scores, 5), vec![1, 3, 0, 4, 2]);
}

#[test]
fn equal_distances_keep_their_order() {
    let scores = vec![d(4, 11), d(4, 11), d(4, 11), d(1, 11), d(4, 11)];
    assert_eq!(k_nearest(&scores, 3), vec![3, 0, 1]);
    assert_eq!(k_nearest(&scores, 5), vec![3, 0, 1, 2, 4]);
}

#[test]
fn equal_quotients_are_equal_distances() {
    let scores = vec![d(2, 4), d(1, 2), d(3, 6), d(1, 3)];
    assert_eq!(k_nearest(&scores, 4), vec![3, 0, 1, 2]);
    assert_eq!(k_nearest(&scores, 2), vec![3, 0]);
}

#[test]
fn distances_with_different_denominators() {
    let scores = vec![d(4, 23), d(16, 23), d(3, 16), d(2, 16), d(1, 7)];
    assert_eq!(k_nearest(&scores, 5), vec![3, 4, 0, 2, 1]);
}

#[test]
fn more_neighbors_than_there_are() {
    let scores = vec![d(2, 1), d(1, 1)];
    assert_eq!(k_nearest(&scores, 7), vec![1, 0]);
    assert_eq!(k_nearest(&scores, usize::MAX), vec![1, 0]);
}

#[test]
fn no_neighbors() {
    let scores = vec![d(2, 1), d(1, 1)];
    assert_eq!(k_nearest(&scores, 0), Vec::<usize>::new());
    assert_eq!(k_nearest(&Vec::new(), 3), Vec::<usize>::new());
}

#[test]
fn descending_and_ascending_scores() {
    let down: Vec<Ncd> = (0..50u64).map(|i| d(50 - i, 50)).collect();
    assert_eq!(k_nearest(&down, 4), vec![49, 48, 47, 46]);
    let up: Vec<Ncd> = (0..50u64).map(|i| d(i, 50)).collect();
    assert_eq!(k_nearest(&up, 4), vec![0, 1, 2, 3]);
}

#[test]
fn selection_agrees_with_a_stable_sort() {
    let mut x: u64 = 7;
    let mut scores = Vec::new();
    for _ in 0..200 {
        x = x.wrapping_mul(6364136223846793005).wrapping_add(1442695040888963407);
        scores.push(d((x >> 33) % 20, 1 + (x >> 50) % 5));
    }
    let mut order: Vec<usize> = (0..scores.len()).collect();
    order.sort_by(|&a, &b| {
        let left = scores[a].num as u128 * scores[b].den as u128;
        let right = scores[b].num as u128 * scores[a].den as u128;
        left.cmp(&right)
    });
    for k in [0usize, 1, 7, 50, 200, 300] {
        let expected: Vec<usize> = order.iter().copied().take(k).collect();
        assert_eq!(k_nearest(&scores, k), expected);
    }
}

#[test]
fn selection_is_the_same_each_time() {
    let scores = vec![d(4, 11), d(2, 11), d(4, 11), d(2, 11)];
    assert_eq!(k_nearest(&scores, 3), k_nearest(&scores, 3));
    assert_eq!(k_nearest(&scores, 3), vec![1, 3, 0]);
}

#[test]
fn counting_tokens() {
    let tokens = vec![1u8, 2, 1, 3, 1, 2];
    assert_eq!(count_in(&tokens, 1), 3);
    assert_eq!(count_in(&tokens, 2), 2);
    assert_eq!(count_in(&tokens, 3), 1);
    assert_eq!(count_in(&tokens, 4), 0);
    assert_eq!(count_in(&Vec::new(), 1), 0);
}

#[test]
fn most_frequent_token_wins() {
    assert_eq!(majority(&vec![1u8, 2, 2, 3, 2]), Some(2));
    assert_eq!(majority(&vec![9u8]), Some(9));
    assert_eq!(majority(&vec![5u8, 5, 5]), Some(5));
}

#[test]
fn of_equally_frequent_tokens_the_first_met_wins() {
    assert_eq!(majority(&vec![3u8, 1, 2]), Some(3));
    assert_eq!(majority(&vec![7u8, 4, 4, 7]), Some(7));
    assert_eq!(majority(&vec![4u8, 7, 7, 4]), Some(4));
    assert_eq!(majority(&vec![1u8, 2, 2, 1, 3]), Some(1));
}

#[test]
fn empty_vote_has_no_winner() {
    assert_eq!(majority(&Vec::new()), None);
}
