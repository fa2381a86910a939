use rkr_gst::run;
use rkr_gst::Match;

fn tile(pattern_index: usize, text_index: usize, length: usize) -> Match {
    Match {
        pattern_index,
        text_index,
        length,
    }
}

#[test]
fn simple_match() {
    assert_eq!(
        run("lower".as_bytes(), "yellow".as_bytes(), 3, 2),
        vec![Match {
            pattern_index: 0,
            text_index: 3,
            length: 3
        }]
    );
}

#[test]
fn duplicate_match() {
    assert_eq!(
        run("lowerlow".as_bytes(), "yellow lowlow".as_bytes(), 3, 2),
        vec![
            Match {
                pattern_index: 0,
                text_index: 3,
                length: 3
            },
            Match {
                pattern_index: 5,
                text_index: 7,
                length: 3
            }
        ]
    );
}

#[test]
fn empty_pattern_has_no_tiles() {
    assert_eq!(run(b"", b"yellow", 3, 2), vec![]);
}

#[test]
fn empty_text_has_no_tiles() {
    assert_eq!(run(b"lower", b"", 3, 2), vec![]);
}

#[test]
fn empty_pattern_and_text_have_no_tiles() {
    assert_eq!(run(b"", b"", 1, 1), vec![]);
}

#[test]
fn minimum_longer_than_pattern_gives_no_tiles() {
    assert_eq!(run(b"ab", b"abab", 4, 3), vec![]);
}

#[test]
fn minimum_longer_than_text_gives_no_tiles() {
    assert_eq!(run(b"abab", b"ab", 3, 3), vec![]);
}

#[test]
fn sequences_without_a_common_byte_have_no_tiles() {
    assert_eq!(run(b"aaaa", b"bbbb", 2, 1), vec![]);
}

#[test]
fn identical_sequences_are_one_tile() {
    assert_eq!(run(b"abcdef", b"abcdef", 3, 2), vec![tile(0, 0, 6)]);
}

#[test]
fn a_match_of_the_minimum_length_is_a_tile() {
    assert_eq!(run(b"xxabyy", b"zzabww", 2, 2), vec![tile(2, 2, 2)]);
}

#[test]
fn a_match_below_the_minimum_length_is_no_tile() {
    assert_eq!(run(b"xxabyy", b"zzabww", 3, 3), vec![]);
}

#[test]
fn the_longest_candidate_is_tiled_first() {
    // At search length 2 the pass finds "bc" at (0, 1) before "abcd" at
    // (3, 0); the longer one takes the text, and the shorter one is dropped.
    assert_eq!(run(b"bc-abcd", b"abcd", 2, 2), vec![tile(3, 0, 4)]);
}

#[test]
fn candidates_of_one_length_are_tiled_in_the_order_found() {
    // "ab" is found at (0, 0) and then at (0, 3); the first takes the
    // pattern's positions.
    assert_eq!(run(b"ab", b"ab-ab", 2, 2), vec![tile(0, 0, 2)]);
}

#[test]
fn a_long_match_raises_the_search_length() {
    // The first pass meets a match of 8 at search length 2 and is run
    // again at 8.
    assert_eq!(run(b"abcdefgh", b"xxabcdefghxx", 2, 2), vec![tile(0, 2, 8)]);
}

#[test]
fn the_search_length_shrinks_to_the_minimum() {
    // Passes at 8 and 4 find nothing; the pass at 2 finds "ab".
    assert_eq!(run(b"xxabyy", b"zzabww", 8, 2), vec![tile(2, 2, 2)]);
}

#[test]
fn the_search_length_is_halved_while_above_twice_the_minimum() {
    // 9 is halved to 4, and 4 is not above twice 2, so the next pass is at
    // 2: "abc" is found at 2 and "xy" as well.
    assert_eq!(
        run(b"abc-xy", b"xy+abc", 9, 2),
        vec![tile(0, 3, 3), tile(4, 0, 2)]
    );
}

#[test]
fn tiles_come_in_the_order_in_which_they_were_laid() {
    assert_eq!(
        run(b"ab_cdefg", b"cdefg_ab", 4, 2),
        vec![tile(3, 0, 5), tile(0, 6, 2)]
    );
}

#[test]
fn a_later_pass_stops_at_the_marks_of_earlier_tiles() {
    // "abcd" is tiled at search length 4; what is left of "bcde" in the
    // pattern is its last byte, found again at search length 1.
    assert_eq!(
        run(b"abcde", b"abcdXbcde", 4, 1),
        vec![tile(0, 0, 4), tile(4, 8, 1)]
    );
}

#[test]
fn a_candidate_that_touches_a_mark_is_dropped_as_a_whole() {
    // "abc" at (0, 0) and "bcd" at (1, 5) are candidates of one pass; the
    // second shares "bc" of the pattern with the first and is dropped, and
    // "d" is too short to be found again.
    assert_eq!(run(b"abcd", b"abc--bcd", 3, 2), vec![tile(0, 0, 3)]);
}

#[test]
fn a_minimum_above_the_initial_length_is_never_tried() {
    // The only pass runs at the initial search length.
    assert_eq!(run(b"a", b"a", 1, 2), vec![tile(0, 0, 1)]);
}

#[test]
fn windows_wider_than_the_checksum_modulus_are_found() {
    let mut state: u32 = 12345;
    let mut pattern: Vec<u8> = Vec::new();
    for _ in 0..70200 {
        state = state.wrapping_mul(1103515245).wrapping_add(12345);
        pattern.push((state >> 16) as u8);
    }
    let mut text: Vec<u8> = vec![7];
    text.extend_from_slice(&pattern);
    assert_eq!(run(&pattern, &text, 70000, 70000), vec![tile(0, 1, 70200)]);
}

#[test]
fn a_window_is_found_after_the_text_has_slid_past_other_bytes() {
    // The window "needle" of the text is reached only by sliding.
    assert_eq!(
        run(b"needle", b"a haystack with a needle in it", 6, 6),
        vec![tile(0, 18, 6)]
    );
}

#[test]
fn a_window_of_the_pattern_is_found_after_sliding() {
    assert_eq!(
        run(b"a haystack with a needle in it", b"needle", 6, 6),
        vec![tile(18, 0, 6)]
    );
}

#[test]
fn running_twice_gives_the_same_tiles() {
    let pattern = b"the quick brown fox jumps over the lazy dog";
    let text = b"a lazy dog and a quick brown cat jump over the fox";
    let first = run(pattern, text, 5, 2);
    let second = run(pattern, text, 5, 2);
    assert_eq!(first, second);
}

fn covered(tiles: &[Match], pattern_side: bool, position: usize) -> bool {
    for m in tiles {
        let start = if pattern_side {
            m.pattern_index
        } else {
            m.text_index
        };
        if start <= position && position < start + m.length {
            return true;
        }
    }
    false
}

fn agree(pattern: &[u8], text: &[u8], laid: &[Match], i: usize, j: usize) -> bool {
    i < pattern.len()
        && j < text.len()
        && pattern[i] == text[j]
        && !covered(laid, true, i)
        && !covered(laid, false, j)
}

#[test]
fn tiles_fit_agree_keep_apart_and_cannot_be_made_longer() {
    let pattern = b"the quick brown fox jumps over the lazy dog";
    let text = b"a lazy dog and a quick brown cat jump over the fox";
    let minimum = 2;
    let tiles = run(pattern, text, 5, minimum);
    assert!(!tiles.is_empty());
    for (n, m) in tiles.iter().enumerate() {
        assert!(m.length >= minimum);
        assert!(m.pattern_index + m.length <= pattern.len());
        assert!(m.text_index + m.length <= text.len());
        assert_eq!(
            &pattern[m.pattern_index..m.pattern_index + m.length],
            &text[m.text_index..m.text_index + m.length]
        );
        for other in &tiles[..n] {
            assert!(
                other.pattern_index + other.length <= m.pattern_index
                    || m.pattern_index + m.length <= other.pattern_index
            );
            assert!(
                other.text_index + other.length <= m.text_index
                    || m.text_index + m.length <= other.text_index
            );
        }
        let laid = &tiles[..n];
        assert!(!agree(
            pattern,
            text,
            laid,
            m.pattern_index + m.length,
            m.text_index + m.length
        ));
        if m.pattern_index > 0 && m.text_index > 0 {
            assert!(!agree(
                pattern,
                text,
                laid,
                m.pattern_index - 1,
                m.text_index - 1
            ));
        }
    }
}

#[test]
fn the_tiles_of_two_sentences() {
    let pattern = b"the quick brown fox";
    let text = b"a quick brown cat";
    // " quick brown " is the one long match; " " and single letters are
    // below the minimum of 3.
    assert_eq!(run(pattern, text, 4, 3), vec![tile(3, 1, 13)]);
}

#[test]
fn matches_are_ordered_by_pattern_then_text_then_length() {
    assert!(tile(0, 3, 3) < tile(5, 7, 3));
    assert!(tile(1, 2, 9) < tile(1, 3, 1));
    assert!(tile(1, 2, 3) < tile(1, 2, 4));
    assert_eq!(tile(1, 2, 3), tile(1, 2, 3));
    assert_ne!(tile(1, 2, 3), tile(1, 2, 4));
}
