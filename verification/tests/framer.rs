use bytes::BytesMut;
use serial_probe::framer::Framer;

#[test]
fn decode_tags_frames_with_cumulative_offsets() {
    let mut framer = Framer::new();
    let mut buf = BytesMut::new();

    buf.extend_from_slice(b"hello");
    let (off, data) = framer.decode(&mut buf).unwrap();
    assert_eq!(off, 0);
    assert_eq!(data, b"hello".to_vec());
    assert!(buf.is_empty());

    buf.extend_from_slice(b", world");
    let (off2, data2) = framer.decode(&mut buf).unwrap();
    assert_eq!(off2, 5);
    assert_eq!(data2, b", world".to_vec());
    assert_eq!(framer.offset, 12);
}

#[test]
fn decode_empty_buffer_yields_no_frame() {
    let mut framer = Framer::new();
    let mut buf = BytesMut::new();
    assert!(framer.decode(&mut buf).is_none());
    assert_eq!(framer.offset, 0);

    buf.extend_from_slice(b"x");
    let (off, data) = framer.decode(&mut buf).unwrap();
    assert_eq!((off, data), (0, vec![b'x']));

    // Drained: the next call sees nothing and does not advance.
    assert!(framer.decode(&mut buf).is_none());
    assert_eq!(framer.offset, 1);
}

#[test]
fn offsets_strictly_increase_and_have_no_gaps() {
    let chunks: Vec<&[u8]> = vec![b"ab", b"", b"cdefg", b"h", b"", b"ij"];
    let mut framer = Framer::new();
    let mut buf = BytesMut::new();
    let mut offsets = Vec::new();
    let mut emitted: usize = 0;
    for chunk in &chunks {
        buf.extend_from_slice(chunk);
        if let Some((off, data)) = framer.decode(&mut buf) {
            assert_eq!(off, emitted);
            offsets.push(off);
            emitted += data.len();
        }
    }
    assert_eq!(offsets, vec![0, 2, 7, 8]);
}

#[test]
fn frames_concatenate_to_the_raw_stream() {
    let chunks: Vec<&[u8]> = vec![b"one", b"", b"two", b"three", b""];
    let stream: Vec<u8> = chunks.concat();
    let mut framer = Framer::new();
    let mut buf = BytesMut::new();
    let mut rebuilt = Vec::new();
    for chunk in &chunks {
        buf.extend_from_slice(chunk);
        if let Some((_, data)) = framer.decode(&mut buf) {
            rebuilt.extend_from_slice(&data);
        }
    }
    assert_eq!(rebuilt, stream);
}

#[test]
fn encode_appends_verbatim_and_round_trips() {
    let mut framer = Framer::new();
    let mut out = BytesMut::new();
    framer.encode(b"abc", &mut out);
    framer.encode(b"def", &mut out);
    assert_eq!(&out[..], b"abcdef");
    assert_eq!(framer.offset, 0);

    let mut reader = Framer::new();
    let (off, data) = reader.decode(&mut out).unwrap();
    assert_eq!(off, 0);
    assert_eq!(data, b"abcdef".to_vec());
}
