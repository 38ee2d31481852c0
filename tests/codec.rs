use collection_generator::vbyte::{vbyte_encode, ByteSource, FormatError, VByteDecoder};
use collection_generator::zipf::ZipfGenerator;

fn decode_all(bytes: Vec<u8>) -> Vec<Result<usize, FormatError>> {
    let mut decoder = VByteDecoder::new(ByteSource::new(bytes));
    let mut out = Vec::new();
    loop {
        let r = decoder.next();
        let stop = r.is_err();
        out.push(r);
        if stop {
            break;
        }
    }
    out
}

#[test]
fn encode_boundaries() {
    assert_eq!(vbyte_encode(0), vec![128]);
    assert_eq!(vbyte_encode(127), vec![255]);
    assert_eq!(vbyte_encode(128), vec![1, 128]);
    assert_eq!(vbyte_encode(200), vec![1, 200]);
    assert_eq!(vbyte_encode(16384), vec![1, 0, 128]);
}

#[test]
fn round_trip_values() {
    let mut values: Vec<usize> = (0..20000).collect();
    values.extend_from_slice(&[1 << 20, (1 << 21) - 1, 1 << 35, usize::MAX - 1, usize::MAX]);
    for v in values {
        let bytes = vbyte_encode(v);
        let n = bytes.len();
        let mut decoder = VByteDecoder::new(ByteSource::new(bytes));
        assert_eq!(decoder.next(), Ok(v));
        assert_eq!(decoder.underlying_iterator().offset(), n);
        assert_eq!(decoder.next(), Err(FormatError::Exhausted { offset: n }));
    }
}

#[test]
fn round_trip_concatenated() {
    let values = [5usize, 0, 300, 127, 128, 1_000_000];
    let mut bytes = Vec::new();
    for v in values {
        bytes.extend(vbyte_encode(v));
    }
    let n = bytes.len();
    let decoded = decode_all(bytes);
    let expected: Vec<Result<usize, FormatError>> = values
        .iter()
        .map(|v| Ok(*v))
        .chain(std::iter::once(Err(FormatError::Exhausted { offset: n })))
        .collect();
    assert_eq!(decoded, expected);
}

#[test]
fn truncated_group_is_an_error() {
    let mut decoder = VByteDecoder::new(ByteSource::new(vec![0x05]));
    assert_eq!(decoder.next(), Err(FormatError::Truncated { offset: 0 }));
    // The bytes of the cut-off group are consumed.
    assert_eq!(decoder.underlying_iterator().offset(), 1);
    assert_eq!(decoder.underlying_iterator().next(), None);
    assert_eq!(decoder.next(), Err(FormatError::Exhausted { offset: 1 }));
}

#[test]
fn empty_source_is_exhausted() {
    let mut decoder = VByteDecoder::new(ByteSource::new(Vec::new()));
    assert_eq!(decoder.next(), Err(FormatError::Exhausted { offset: 0 }));
}

#[test]
fn zero_digit_is_not_end_of_stream() {
    // 16384 = 1 * 128^2 + 0 * 128 + 0: a zero digit in the middle of a group.
    let mut decoder = VByteDecoder::new(ByteSource::new(vec![1, 0, 128, 0, 128]));
    assert_eq!(decoder.next(), Ok(16384));
    assert_eq!(decoder.next(), Ok(0));
}

#[test]
fn value_too_large_overflows() {
    let mut bytes = vec![0x7f; 10];
    bytes.push(0xff);
    let mut decoder = VByteDecoder::new(ByteSource::new(bytes));
    assert_eq!(decoder.next(), Err(FormatError::Overflow { offset: 0 }));
}

#[test]
fn leading_zero_digits_are_accepted() {
    let mut decoder = VByteDecoder::new(ByteSource::new(vec![0, 0, 0, 129]));
    assert_eq!(decoder.next(), Ok(1));
}

#[test]
fn underlying_bytes_are_shared() {
    let mut decoder = VByteDecoder::new(ByteSource::new(vec![7, 130, 3, 131]));
    assert_eq!(decoder.underlying_iterator().next(), Some(7));
    assert_eq!(decoder.next(), Ok(2));
    assert_eq!(decoder.underlying_iterator().next(), Some(3));
    assert_eq!(decoder.next(), Ok(3));
    assert_eq!(decoder.underlying_iterator().next(), None);
}

#[test]
fn failure_reports_where_the_value_started() {
    let mut decoder = VByteDecoder::new(ByteSource::new(vec![1, 200, 131, 4, 5]));
    assert_eq!(decoder.next(), Ok(200));
    assert_eq!(decoder.next(), Ok(3));
    assert_eq!(decoder.underlying_iterator().offset(), 3);
    assert_eq!(decoder.next(), Err(FormatError::Truncated { offset: 3 }));
    assert_eq!(decoder.underlying_iterator().offset(), 5);
}

#[test]
fn overflow_leaves_the_source_in_place() {
    let mut bytes = vec![0x7f; 10];
    bytes.push(0xff);
    let mut decoder = VByteDecoder::new(ByteSource::new(bytes));
    assert_eq!(decoder.next(), Err(FormatError::Overflow { offset: 0 }));
    assert_eq!(decoder.underlying_iterator().offset(), 0);
}

#[test]
fn generator_clone_keeps_the_table() {
    let g = ZipfGenerator::with_seed(40, 3);
    let h = g.clone();
    assert_eq!(g.acc_probs(), h.acc_probs());
    assert_eq!(h.voc_size(), 40);
}
