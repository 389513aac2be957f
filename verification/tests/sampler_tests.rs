use ncd_predict::error::NcdError;
use ncd_predict::sampler::exhaustive;
use ncd_predict::sampler::expand;
use ncd_predict::sampler::expand_window;
use ncd_predict::sampler::get_data;
use ncd_predict::sampler::random_batch;
use ncd_predict::sampler::Example;
use ncd_predict::sampler::Window;

#[test]
fn exhaustive_sample_of_a_short_corpus() {
    let corpus = b"abcabcabcabc";
    let examples = exhaustive(corpus, 3).unwrap();
    assert_eq!(examples.len(), 27);
    for offset in 0..9usize {
        for t in 1..=3usize {
            let example = examples[offset * 3 + (t - 1)];
            assert_eq!(example.window, Window { start: offset, len: t });
            assert_eq!(example.target, corpus[offset + t]);
        }
    }
    assert_eq!(examples[0], Example { window: Window { start: 0, len: 1 }, target: b'b' });
    assert_eq!(examples[1], Example { window: Window { start: 0, len: 2 }, target: b'c' });
    assert_eq!(examples[2], Example { window: Window { start: 0, len: 3 }, target: b'a' });
    assert_eq!(examples[26], Example { window: Window { start: 8, len: 3 }, target: b'c' });
}

#[test]
fn exhaustive_sample_counts() {
    assert_eq!(exhaustive(b"abcdefgh", 1).unwrap().len(), 7);
    assert_eq!(exhaustive(b"abcdefgh", 7).unwrap().len(), 7);
    assert_eq!(exhaustive(b"abcdefgh", 4).unwrap().len(), 16);
}

#[test]
fn exhaustive_sample_of_a_corpus_of_one_window_is_empty() {
    assert_eq!(exhaustive(b"abc", 3), Ok(vec![]));
    assert_eq!(exhaustive(b"", 0), Ok(vec![]));
}

#[test]
fn exhaustive_sample_with_empty_windows_is_empty() {
    assert_eq!(exhaustive(b"abc", 0), Ok(vec![]));
}

#[test]
fn exhaustive_sample_needs_a_whole_window() {
    assert_eq!(exhaustive(b"ab", 3), Err(NcdError::ContextTooShort));
    assert_eq!(exhaustive(b"", 1), Err(NcdError::ContextTooShort));
}

#[test]
fn window_gives_one_example_for_each_prefix() {
    let corpus = b"hello";
    assert_eq!(
        expand_window(corpus, Window { start: 1, len: 3 }),
        Ok(vec![
            Example { window: Window { start: 1, len: 1 }, target: b'l' },
            Example { window: Window { start: 1, len: 2 }, target: b'l' },
            Example { window: Window { start: 1, len: 3 }, target: b'o' },
        ])
    );
    assert_eq!(expand_window(corpus, Window { start: 2, len: 0 }), Ok(vec![]));
}

#[test]
fn window_without_a_target_is_refused() {
    let corpus = b"hello";
    assert_eq!(expand_window(corpus, Window { start: 2, len: 3 }), Err(NcdError::ContextTooShort));
    assert_eq!(expand_window(corpus, Window { start: 5, len: 0 }), Err(NcdError::ContextTooShort));
    assert_eq!(expand_window(corpus, Window { start: 0, len: 5 }), Err(NcdError::ContextTooShort));
    assert_eq!(
        expand_window(corpus, Window { start: usize::MAX, len: usize::MAX }),
        Err(NcdError::ContextTooShort)
    );
    assert_eq!(expand_window(corpus, Window { start: usize::MAX, len: 1 }), Err(NcdError::ContextTooShort));
}

#[test]
fn windows_are_expanded_in_their_order() {
    let corpus = b"hello";
    let windows = vec![Window { start: 3, len: 1 }, Window { start: 0, len: 2 }];
    assert_eq!(
        expand(corpus, &windows),
        Ok(vec![
            Example { window: Window { start: 3, len: 1 }, target: b'o' },
            Example { window: Window { start: 0, len: 1 }, target: b'e' },
            Example { window: Window { start: 0, len: 2 }, target: b'l' },
        ])
    );
    assert_eq!(expand(corpus, &vec![]), Ok(vec![]));
    let bad = vec![Window { start: 0, len: 2 }, Window { start: 4, len: 1 }];
    assert_eq!(expand(corpus, &bad), Err(NcdError::ContextTooShort));
}

#[test]
fn window_knows_whether_it_fits() {
    let w = Window { start: 2, len: 3 };
    assert!(w.fits_in(5));
    assert!(!w.fits_in(4));
    assert!(!w.has_target_in(5));
    assert!(w.has_target_in(6));
    assert!(!Window { start: usize::MAX, len: 2 }.fits_in(usize::MAX));
    assert!(Window { start: 0, len: 0 }.fits_in(0));
    assert!(!Window { start: 0, len: 0 }.has_target_in(0));
}

#[test]
fn window_views_its_tokens() {
    let corpus = b"hello";
    assert_eq!(Window { start: 1, len: 3 }.slice(corpus), b"ell");
    assert_eq!(Window { start: 5, len: 0 }.slice(corpus), b"");
    assert_eq!(Window { start: 0, len: 5 }.slice(corpus), b"hello");
}

#[test]
fn random_windows_lie_in_range() {
    let data = b"abcdefghijklmnopqrstuvwxyz".to_vec();
    let (x, y) = get_data(&data, 16, 200).unwrap();
    assert_eq!(x.len(), 200);
    assert_eq!(y.len(), 200);
    for b in 0..200 {
        assert_eq!(x[b].len, 16);
        assert!(x[b].start < 10);
        assert_eq!(y[b], Window { start: x[b].start + 1, len: 16 });
        assert!(y[b].fits_in(data.len()));
    }
}

#[test]
fn second_window_holds_the_targets_of_the_first() {
    let data = b"abcdefghijklmnopqrstuvwxyz".to_vec();
    let (x, y) = get_data(&data, 5, 20).unwrap();
    let examples = expand(&data, &x).unwrap();
    assert_eq!(examples.len(), 100);
    for b in 0..20usize {
        let targets = y[b].slice(&data);
        for t in 0..5usize {
            assert_eq!(examples[b * 5 + t].target, targets[t]);
        }
    }
}

#[test]
fn random_windows_reach_every_offset() {
    let data = b"abcdef".to_vec();
    let (x, _) = get_data(&data, 3, 400).unwrap();
    for offset in 0..3usize {
        assert!(x.iter().any(|w| w.start == offset));
    }
}

#[test]
fn random_window_of_the_only_offset() {
    let data = b"abcd".to_vec();
    let (x, y) = get_data(&data, 3, 5).unwrap();
    assert_eq!(x, vec![Window { start: 0, len: 3 }; 5]);
    assert_eq!(y, vec![Window { start: 1, len: 3 }; 5]);
}

#[test]
fn random_windows_need_room_for_a_target() {
    assert_eq!(get_data(&b"abc".to_vec(), 3, 1), Err(NcdError::ContextTooShort));
    assert_eq!(get_data(&b"ab".to_vec(), 3, 1), Err(NcdError::ContextTooShort));
    assert_eq!(get_data(&b"abc".to_vec(), 3, 0), Err(NcdError::ContextTooShort));
    assert_eq!(get_data(&Vec::new(), 0, 1), Err(NcdError::ContextTooShort));
}

#[test]
fn empty_batch_is_empty() {
    assert_eq!(get_data(&b"abcd".to_vec(), 3, 0), Ok((vec![], vec![])));
    assert_eq!(random_batch(&b"abcd".to_vec(), 3, 0), Ok(vec![]));
}

#[test]
fn random_batch_gives_the_prefixes_of_its_windows() {
    let data = b"abcdefghijklmnopqrstuvwxyz".to_vec();
    let examples = random_batch(&data, 4, 50).unwrap();
    assert_eq!(examples.len(), 200);
    for b in 0..50usize {
        let start = examples[b * 4].window.start;
        assert!(start < 22);
        for t in 1..=4usize {
            let example = examples[b * 4 + t - 1];
            assert_eq!(example.window, Window { start, len: t });
            assert_eq!(example.target, data[start + t]);
        }
    }
}

#[test]
fn random_batch_needs_room_for_a_target() {
    assert_eq!(random_batch(&b"abc".to_vec(), 3, 2), Err(NcdError::ContextTooShort));
}
