use capnp_gj::{
    encoded_len, parse_segment_table, read_message, read_segment_count, remaining_table_len,
    segment_table_len, try_read_message, write_message, write_segment_table, FramingError,
    OutputSegmentsContainer, OwnedSegments,
};

fn words_le(words: &[u64]) -> Vec<u8> {
    let mut out = Vec::new();
    for w in words {
        out.extend_from_slice(&w.to_le_bytes());
    }
    out
}

fn segments_of(store: &OwnedSegments) -> Vec<Vec<u64>> {
    let mut out = Vec::new();
    for i in 0..store.segment_count() {
        out.push(store.get_segment(i as u32).unwrap().to_vec());
    }
    out
}

fn encode(segs: &[Vec<u64>]) -> Vec<u8> {
    let c = OutputSegmentsContainer::new(segs.to_vec());
    write_message(&c)
}

#[test]
fn single_segment_scenario() {
    let words = [0x1111111111111111u64, 0x2222222222222222u64];
    let mut bytes = vec![0, 0, 0, 0, 2, 0, 0, 0];
    bytes.extend_from_slice(&words_le(&words));
    assert_eq!(encode(&[words.to_vec()]), bytes);
    match try_read_message(&bytes) {
        Ok(Some((store, n))) => {
            assert_eq!(n, 24);
            assert_eq!(store.segment_count(), 1);
            assert_eq!(store.total_words(), 2);
            assert_eq!(store.get_segment(0).unwrap(), &words[..]);
            assert!(store.get_segment(1).is_none());
        }
        _ => panic!("expected a message"),
    }
}

#[test]
fn three_segment_scenario() {
    let header: Vec<u8> = vec![2, 0, 0, 0, 1, 0, 0, 0, 0, 0, 0, 0, 3, 0, 0, 0];
    let segs = vec![vec![7u64], vec![], vec![8u64, 9, 10]];
    let c = OutputSegmentsContainer::new(segs.clone());
    assert_eq!(write_segment_table(&c), header);
    let layout = parse_segment_table(&header);
    assert_eq!(layout.slices, vec![(0u64, 1u64), (1, 1), (1, 4)]);
    assert_eq!(layout.total_words, 4);
    let bytes = write_message(&c);
    assert_eq!(bytes.len(), 16 + 32);
    assert_eq!(&bytes[..16], &header[..]);
    let (store, n) = read_message(&bytes).ok().unwrap();
    assert_eq!(n, 48);
    assert_eq!(segments_of(&store), segs);
}

#[test]
fn padding_field_is_ignored() {
    let segs = vec![vec![1u64], vec![], vec![2u64, 3, 4], vec![5u64]];
    let mut bytes = encode(&segs);
    assert_eq!(&bytes[20..24], &[0u8, 0, 0, 0][..]);
    bytes[20] = 0xAB;
    bytes[23] = 0xCD;
    let (store, n) = read_message(&bytes).ok().unwrap();
    assert_eq!(n, 24 + 40);
    assert_eq!(segments_of(&store), segs);
}

#[test]
fn header_size_law() {
    assert_eq!(segment_table_len(1), 8);
    assert_eq!(segment_table_len(2), 16);
    assert_eq!(segment_table_len(3), 16);
    assert_eq!(segment_table_len(4), 24);
    assert_eq!(segment_table_len(511), 2048);
    assert_eq!(remaining_table_len(1), 0);
    assert_eq!(remaining_table_len(2), 8);
    assert_eq!(remaining_table_len(3), 8);
    assert_eq!(remaining_table_len(4), 16);
    for n in 1..20usize {
        let segs: Vec<Vec<u64>> = (0..n).map(|i| vec![i as u64; i % 3]).collect();
        let c = OutputSegmentsContainer::new(segs);
        assert_eq!(write_segment_table(&c).len(), segment_table_len(n));
        assert_eq!(write_segment_table(&c).len(), ((n + 2) & !1) * 4);
    }
}

#[test]
fn zero_segments_rejected() {
    let bytes = vec![0xFF, 0xFF, 0xFF, 0xFF, 0, 0, 0, 0];
    assert_eq!(read_segment_count(&bytes), Err(FramingError::InvalidSegmentCount(0)));
    assert!(matches!(try_read_message(&bytes), Err(FramingError::InvalidSegmentCount(0))));
    assert!(matches!(read_message(&bytes), Err(FramingError::InvalidSegmentCount(0))));
}

#[test]
fn too_many_segments_rejected() {
    let bytes = vec![0xFF, 0x01, 0, 0, 0, 0, 0, 0];
    assert_eq!(read_segment_count(&bytes), Err(FramingError::InvalidSegmentCount(512)));
    assert!(matches!(try_read_message(&bytes), Err(FramingError::InvalidSegmentCount(512))));
    let bytes = vec![0x00, 0x00, 0x01, 0, 0, 0, 0, 0];
    assert!(matches!(read_message(&bytes), Err(FramingError::InvalidSegmentCount(65537))));
    let bytes = vec![0xFE, 0x01, 0, 0, 0, 0, 0, 0];
    assert_eq!(read_segment_count(&bytes), Ok(511));
}

#[test]
fn largest_segment_count_round_trips() {
    let segs: Vec<Vec<u64>> = (0..511).map(|i| vec![i as u64; i % 2]).collect();
    let bytes = encode(&segs);
    let (store, n) = read_message(&bytes).ok().unwrap();
    assert_eq!(n, bytes.len());
    assert_eq!(segments_of(&store), segs);
}

#[test]
fn clean_end_of_stream() {
    let bytes: Vec<u8> = Vec::new();
    assert!(matches!(try_read_message(&bytes), Ok(None)));
    assert!(matches!(read_message(&bytes), Err(FramingError::PrematureEof)));
}

#[test]
fn short_first_word_is_an_error() {
    for len in 1..8usize {
        let bytes = vec![0u8; len];
        assert!(matches!(try_read_message(&bytes), Err(FramingError::PrematureEof)));
        assert!(matches!(read_message(&bytes), Err(FramingError::PrematureEof)));
    }
}

#[test]
fn short_table_or_body_is_an_error() {
    let bytes = encode(&[vec![1u64], vec![], vec![2u64, 3, 4]]);
    for len in 8..bytes.len() {
        assert!(matches!(try_read_message(&bytes[..len]), Err(FramingError::PrematureEof)));
    }
    assert!(matches!(try_read_message(&bytes), Ok(Some(_))));
}

#[test]
fn round_trip_with_trailing_bytes() {
    let cases: Vec<Vec<Vec<u64>>> = vec![
        vec![vec![]],
        vec![vec![u64::MAX, 0, 0x0102030405060708]],
        vec![vec![5u64], vec![6u64, 7]],
        vec![vec![], vec![], vec![], vec![1u64]],
    ];
    for segs in cases {
        let mut bytes = encode(&segs);
        let len = bytes.len();
        assert_eq!(encoded_len(&OutputSegmentsContainer::new(segs.clone())), Some(len));
        bytes.extend_from_slice(&[9, 9, 9]);
        match try_read_message(&bytes) {
            Ok(Some((store, n))) => {
                assert_eq!(n, len);
                assert_eq!(segments_of(&store), segs);
            }
            _ => panic!("expected a message"),
        }
    }
}

#[test]
fn two_messages_in_a_row() {
    let a = vec![vec![1u64, 2]];
    let b = vec![vec![3u64], vec![4u64]];
    let mut bytes = encode(&a);
    bytes.extend_from_slice(&encode(&b));
    let (first, n) = read_message(&bytes).ok().unwrap();
    assert_eq!(segments_of(&first), a);
    let (second, m) = read_message(&bytes[n..]).ok().unwrap();
    assert_eq!(segments_of(&second), b);
    assert!(matches!(try_read_message(&bytes[n + m..]), Ok(None)));
}

#[test]
fn decoding_twice_gives_the_same_segments() {
    let bytes = encode(&[vec![0xDEADBEEFu64], vec![1u64, 2, 3]]);
    let copy = bytes.clone();
    let (s1, n1) = read_message(&bytes).ok().unwrap();
    let (s2, n2) = read_message(&copy).ok().unwrap();
    assert_eq!(n1, n2);
    assert_eq!(segments_of(&s1), segments_of(&s2));
}

#[test]
fn encoded_len_refuses_empty_message() {
    assert_eq!(encoded_len(&OutputSegmentsContainer::new(Vec::new())), None);
    assert_eq!(encoded_len(&OutputSegmentsContainer::new(vec![vec![1u64]])), Some(16));
}

#[test]
fn container_hands_segments_back() {
    let segs = vec![vec![1u64], vec![2u64, 3]];
    let c = OutputSegmentsContainer::new(segs.clone());
    assert_eq!(c.len(), 2);
    assert_eq!(c.get(), &segs);
    assert_eq!(c.segment_bytes(1), words_le(&[2, 3]));
}
