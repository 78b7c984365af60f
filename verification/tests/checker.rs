use serial_probe::checker::{check_frame, find_offset, is_complete, skew_of};

#[test]
fn find_offset_locates_first_occurrence() {
    assert_eq!(find_offset(b"ABCDEFGHIJ", b"DEF"), Some(3));
    assert_eq!(find_offset(b"ABCABC", b"ABC"), Some(0));
    assert_eq!(find_offset(b"ABCABC", b"CAB"), Some(2));
    assert_eq!(find_offset(b"ABCDEFGHIJ", b"ABCDEFGHIJ"), Some(0));
}

#[test]
fn find_offset_reports_absence() {
    assert_eq!(find_offset(b"ABC", b"XYZ"), None);
    assert_eq!(find_offset(b"AB", b"ABC"), None);
    assert_eq!(find_offset(b"", b"A"), None);
}

#[test]
fn matching_frame_reports_nothing() {
    let expected = b"HELLOWORLD";
    let report = check_frame(expected, 0, b"HELLO");
    assert!(report.mismatch.is_none());
    assert!(!report.overrun);

    let report = check_frame(expected, 5, b"WORLD");
    assert!(report.mismatch.is_none());
    assert!(!report.overrun);
}

#[test]
fn mismatch_is_localized_at_the_corrupted_byte() {
    // Expected slice at offset 2 is "CDEF..."; the frame diverges at its
    // second byte, absolute position 3.
    let expected = b"ABCDEFGHIJ";
    let report = check_frame(expected, 2, b"CXEF");
    assert!(!report.overrun);
    let mm = report.mismatch.unwrap();
    assert_eq!(mm.position, 3);
    assert_eq!(mm.observed, b'X');
    assert_eq!(mm.expected_byte, b'D');
    // "CXEF" occurs nowhere in the expected payload.
    assert_eq!(mm.resync, None);
}

#[test]
fn resynchronization_reports_the_true_position() {
    // The frame "DEF" is a verbatim substring of the expected payload at
    // position 3, not at its recorded offset 2.
    let expected = b"ABCDEFGHIJ";
    let report = check_frame(expected, 2, b"DEF");
    let mm = report.mismatch.unwrap();
    assert_eq!(mm.position, 2);
    assert_eq!(mm.observed, b'D');
    assert_eq!(mm.expected_byte, b'C');
    assert_eq!(mm.resync, Some(3));
    assert_eq!(skew_of(3, 2), 1);
}

#[test]
fn overrun_is_flagged_and_comparison_is_clamped() {
    // Only one expected byte remains at offset 2; the rest of the frame
    // is an overrun but the compared prefix matches.
    let report = check_frame(b"ABC", 2, b"CDE");
    assert!(report.overrun);
    assert!(report.mismatch.is_none());

    // Offset entirely past the end: nothing to compare, pure overrun.
    let report = check_frame(b"ABC", 5, b"X");
    assert!(report.overrun);
    assert!(report.mismatch.is_none());

    // A divergence inside the clamped region is still localized.
    let report = check_frame(b"ABC", 1, b"XYZ");
    assert!(report.overrun);
    let mm = report.mismatch.unwrap();
    assert_eq!(mm.position, 1);
    assert_eq!(mm.observed, b'X');
    assert_eq!(mm.expected_byte, b'B');
}

#[test]
fn completion_fires_exactly_at_the_expected_length() {
    assert!(is_complete(10, 3, 7));
    assert!(!is_complete(10, 3, 6));
    assert!(is_complete(10, 3, 8));
    assert!(is_complete(10, 12, 0));
    assert!(is_complete(0, 0, 0));
}

#[test]
fn skew_is_signed() {
    assert_eq!(skew_of(3, 5), -2);
    assert_eq!(skew_of(5, 5), 0);
    assert_eq!(skew_of(8, 5), 3);
}
