use rkr_gst::run;
use rkr_gst::try_run;
use rkr_gst::InvalidArgument;
use rkr_gst::Match;

#[test]
fn a_search_length_of_zero_is_refused() {
    assert_eq!(
        try_run(b"lower", b"yellow", 0, 2),
        Err(InvalidArgument::ZeroSearchLength)
    );
}

#[test]
fn a_match_length_of_zero_is_refused() {
    assert_eq!(
        try_run(b"lower", b"yellow", 3, 0),
        Err(InvalidArgument::ZeroMatchLength)
    );
}

#[test]
fn a_search_length_of_zero_is_reported_before_a_match_length_of_zero() {
    assert_eq!(
        try_run(b"lower", b"yellow", 0, 0),
        Err(InvalidArgument::ZeroSearchLength)
    );
}

#[test]
fn positive_lengths_are_run() {
    assert_eq!(
        try_run(b"lower", b"yellow", 3, 2),
        Ok(vec![Match {
            pattern_index: 0,
            text_index: 3,
            length: 3
        }])
    );
    assert_eq!(
        try_run(b"lowerlow", b"yellow lowlow", 3, 2),
        Ok(run(b"lowerlow", b"yellow lowlow", 3, 2))
    );
}

#[test]
fn the_greatest_lengths_are_run() {
    assert_eq!(try_run(b"lower", b"yellow", usize::MAX, usize::MAX), Ok(vec![]));
    // From the greatest length the search length is halved down to 3,
    // where "low" is found, and then set to 1, where "e" is.
    assert_eq!(
        try_run(b"lower", b"yellow", usize::MAX, 1),
        Ok(vec![
            Match {
                pattern_index: 0,
                text_index: 3,
                length: 3
            },
            Match {
                pattern_index: 3,
                text_index: 1,
                length: 1
            }
        ])
    );
}
