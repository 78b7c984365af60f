use bytes::BytesMut;
use serial_probe::checker::{check_frame, is_complete};
use serial_probe::framer::Framer;
use serial_probe::payload::{gen_payload, to_expected};

const ALPHABET: &[u8] = b"abcdefghijklmnopqrstuvwxyz0123456789";

/// A fixed 2000-byte lowercase alphanumeric payload.
fn fixed_payload() -> Vec<u8> {
    (0..2000).map(|i| ALPHABET[i % ALPHABET.len()]).collect()
}

/// Feed `received` back through a decode framer in the given chunk sizes
/// and run every frame through the verifier. Returns the mismatch
/// positions reported, the resynchronization results that came with them,
/// and the total observed length when the run completed.
fn run_verifier(
    expected: &[u8],
    received: &[u8],
    chunk_sizes: &[usize],
) -> (Vec<usize>, Vec<Option<usize>>, usize) {
    let mut framer = Framer::new();
    let mut buf = BytesMut::new();
    let mut positions = Vec::new();
    let mut resyncs = Vec::new();
    let mut total = 0;
    let mut pos = 0;
    let mut done = false;
    for &size in chunk_sizes {
        buf.extend_from_slice(&received[pos..pos + size]);
        pos += size;
        if let Some((off, data)) = framer.decode(&mut buf) {
            let report = check_frame(expected, off, &data);
            assert!(!report.overrun);
            if let Some(mm) = report.mismatch {
                positions.push(mm.position);
                resyncs.push(mm.resync);
            }
            total = off + data.len();
            if is_complete(expected.len(), off, data.len()) {
                done = true;
            }
        }
    }
    assert!(done);
    (positions, resyncs, total)
}

#[test]
fn end_to_end_matching_stream_verifies_cleanly() {
    let tx = fixed_payload();
    let expected = to_expected(&tx);
    let (positions, _, total) = run_verifier(&expected, &expected, &[1, 7, 500, 1492]);
    assert_eq!(positions, Vec::<usize>::new());
    assert_eq!(total, 2000);
}

#[test]
fn end_to_end_with_random_payload_verifies_cleanly() {
    let tx = gen_payload(2000);
    let expected = to_expected(&tx);
    let (positions, _, total) = run_verifier(&expected, &expected, &[250, 1, 1040, 709]);
    assert_eq!(positions, Vec::<usize>::new());
    assert_eq!(total, 2000);
}

#[test]
fn corrupted_byte_is_localized_with_no_resynchronization() {
    let tx = fixed_payload();
    let expected = to_expected(&tx);
    let mut received = expected.clone();
    // A byte that the expected payload never holds: the corrupted chunk
    // is not a substring of the expected payload anywhere.
    received[999] = b'~';
    let (positions, resyncs, total) = run_verifier(&expected, &received, &[1, 7, 500, 1492]);
    assert_eq!(positions, vec![999]);
    assert_eq!(resyncs, vec![None]);
    assert_eq!(total, 2000);
}
