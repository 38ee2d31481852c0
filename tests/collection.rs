use collection_generator::collection::{
    encode_document, encode_header, read_collection, CollectionIterator, CollectionWriter,
    ConfigurationError,
};
use collection_generator::vbyte::{ByteSource, FormatError, VByteDecoder};
use collection_generator::zipf::ZipfGenerator;

fn reader(bytes: Vec<u8>) -> Result<CollectionIterator, FormatError> {
    CollectionIterator::new(VByteDecoder::new(ByteSource::new(bytes)))
}

#[test]
fn two_documents_of_three_terms() {
    let mut bytes = encode_header(2, 3);
    assert_eq!(bytes, vec![130, 131]);
    let doc0 = encode_document(&vec![0, 200, 5]);
    assert_eq!(doc0, vec![128, 1, 200, 133]);
    bytes.extend(doc0);
    bytes.extend(encode_document(&vec![127, 128, 1]));
    let mut it = reader(bytes).unwrap();
    assert_eq!((it.docs(), it.len()), (2, 3));
    assert_eq!(it.next(), Ok(Some(vec![0, 200, 5])));
    assert_eq!(it.next(), Ok(Some(vec![127, 128, 1])));
    assert_eq!(it.next(), Ok(None));
    assert_eq!(it.next(), Ok(None));
}

#[test]
fn trailing_bytes_are_ignored() {
    let mut bytes = encode_header(1, 2);
    bytes.extend(encode_document(&vec![4, 9]));
    bytes.extend(vec![128, 129, 130]);
    let mut it = reader(bytes).unwrap();
    assert_eq!(it.next(), Ok(Some(vec![4, 9])));
    assert_eq!(it.next(), Ok(None));
}

#[test]
fn truncated_header_is_an_error() {
    assert!(matches!(reader(Vec::new()), Err(FormatError::Exhausted { offset: 0 })));
    assert!(matches!(reader(vec![130]), Err(FormatError::Exhausted { offset: 1 })));
    assert!(matches!(reader(vec![130, 0x05]), Err(FormatError::Truncated { offset: 1 })));
}

#[test]
fn truncated_document_is_an_error() {
    let mut bytes = encode_header(2, 3);
    bytes.extend(encode_document(&vec![1, 2, 3]));
    bytes.extend(encode_document(&vec![4, 5]));
    let mut it = reader(bytes).unwrap();
    assert_eq!(it.next(), Ok(Some(vec![1, 2, 3])));
    assert_eq!(it.next(), Err(FormatError::Exhausted { offset: 7 }));
    assert_eq!(it.next(), Ok(None));
}

#[test]
fn writer_rejects_empty_sizes() {
    assert!(matches!(
        CollectionWriter::new(0, 3, ZipfGenerator::with_seed(10, 1)),
        Err(ConfigurationError::NoDocuments)
    ));
    assert!(matches!(
        CollectionWriter::new(2, 0, ZipfGenerator::with_seed(10, 1)),
        Err(ConfigurationError::EmptyDocuments)
    ));
    assert!(matches!(
        CollectionWriter::new(2, 3, ZipfGenerator::with_seed(0, 1)),
        Err(ConfigurationError::EmptyVocabulary)
    ));
}

#[test]
fn written_collection_reads_back() {
    for &(count, length, voc) in &[(1usize, 1usize, 1usize), (7, 13, 300), (50, 4, 100000)] {
        let mut writer = CollectionWriter::new(count, length, ZipfGenerator::with_seed(voc, 42)).unwrap();
        let mut bytes = writer.header();
        let mut chunks = 0;
        while let Some(chunk) = writer.next_document() {
            bytes.extend(chunk);
            chunks += 1;
        }
        assert_eq!(chunks, count);
        assert_eq!(writer.written(), count);
        assert!(writer.next_document().is_none());
        let mut it = reader(bytes).unwrap();
        assert_eq!((it.docs(), it.len()), (count, length));
        let mut read = 0;
        while let Some(doc) = it.next().unwrap() {
            assert_eq!(doc.len(), length);
            assert!(doc.iter().all(|&t| t < voc));
            read += 1;
        }
        assert_eq!(read, count);
    }
}

#[test]
fn whole_collection_is_read() {
    let mut bytes = encode_header(2, 3);
    bytes.extend(encode_document(&vec![0, 200, 5]));
    bytes.extend(encode_document(&vec![127, 128, 1]));
    bytes.push(130);
    assert_eq!(
        read_collection(bytes),
        Ok((2, 3, vec![vec![0, 200, 5], vec![127, 128, 1]]))
    );
}

#[test]
fn whole_collection_reports_truncation() {
    let mut bytes = encode_header(2, 3);
    bytes.extend(encode_document(&vec![1, 2, 3]));
    bytes.extend(vec![4, 0x05]);
    assert_eq!(read_collection(bytes), Err(FormatError::Truncated { offset: 5 }));
    assert_eq!(read_collection(vec![131]), Err(FormatError::Exhausted { offset: 1 }));
}

#[test]
fn written_collection_is_read_whole() {
    let (count, length, voc) = (20usize, 9usize, 500usize);
    let mut writer = CollectionWriter::new(count, length, ZipfGenerator::with_seed(voc, 5)).unwrap();
    let mut bytes = writer.header();
    while let Some(chunk) = writer.next_document() {
        bytes.extend(chunk);
    }
    let (c, l, docs) = read_collection(bytes).unwrap();
    assert_eq!((c, l, docs.len()), (count, length, count));
    assert!(docs.iter().all(|d| d.len() == length && d.iter().all(|&t| t < voc)));
}
