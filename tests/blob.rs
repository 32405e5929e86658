use mailstore::blob::{
    apply_range, frame_blob, unframe_blob, BlobError, BlobStore, CompressionAlgo, InvalidCompression,
};

#[test]
fn markers() {
    assert_eq!(CompressionAlgo::Lz4.marker(), 0xA1);
    assert_eq!(CompressionAlgo::Uncompressed.marker(), 0);
}

#[test]
fn compression_round_trip() {
    let data: Vec<u8> = b"hello hello hello hello hello hello".to_vec();
    for algo in [CompressionAlgo::Uncompressed, CompressionAlgo::Lz4] {
        let mut store = BlobStore::new(algo);
        assert_eq!(store.put_blob(&b"k".to_vec(), &data), Ok(()));
        assert_eq!(store.get_blob(&b"k".to_vec(), 0..usize::MAX), Ok(Some(data.clone())));
        assert_eq!(store.get_blob(&b"k".to_vec(), 6..11), Ok(Some(b"hello".to_vec())));
        assert_eq!(store.get_blob(&b"other".to_vec(), 0..usize::MAX), Ok(None));
    }
}

#[test]
fn lz4_frame_is_compressed_and_marked() {
    let data = vec![7u8; 1000];
    let framed = frame_blob(CompressionAlgo::Lz4, &data).unwrap();
    assert_eq!(*framed.last().unwrap(), 0xA1);
    assert!(framed.len() < data.len());
    assert_eq!(unframe_blob(CompressionAlgo::Lz4, framed), Ok(data.clone()));
    assert_eq!(frame_blob(CompressionAlgo::Uncompressed, &data), Ok(data));
}

#[test]
fn lz4_legacy_read() {
    let raw = vec![1u8, 2, 3, 0x00];
    let mut plain = BlobStore::new(CompressionAlgo::Uncompressed);
    assert_eq!(plain.put_blob(&b"blob".to_vec(), &raw), Ok(()));
    let lz4 = plain.with_compression(CompressionAlgo::Lz4);
    assert_eq!(lz4.compression, CompressionAlgo::Lz4);
    assert_eq!(lz4.get_blob(&b"blob".to_vec(), 0..usize::MAX), Ok(Some(raw)));
}

#[test]
fn marked_blob_that_does_not_decompress() {
    let mut plain = BlobStore::new(CompressionAlgo::Uncompressed);
    assert_eq!(plain.put_blob(&b"bad".to_vec(), &vec![1u8, 2, 3, 0xA1]), Ok(()));
    let lz4 = plain.with_compression(CompressionAlgo::Lz4);
    assert_eq!(lz4.get_blob(&b"bad".to_vec(), 0..usize::MAX), Err(BlobError::Decompress));
}

#[test]
fn delete_blob_reports_presence() {
    let mut store = BlobStore::new(CompressionAlgo::Lz4);
    assert_eq!(store.put_blob(&b"k".to_vec(), &b"v".to_vec()), Ok(()));
    assert!(store.delete_blob(&b"k".to_vec()));
    assert!(!store.delete_blob(&b"k".to_vec()));
    assert_eq!(store.get_blob(&b"k".to_vec(), 0..usize::MAX), Ok(None));
}

#[test]
fn ranges_are_cut_at_the_end() {
    let data = vec![0u8, 1, 2, 3, 4];
    assert_eq!(apply_range(&data, 1, 3), vec![1, 2]);
    assert_eq!(apply_range(&data, 3, 100), vec![3, 4]);
    assert_eq!(apply_range(&data, 7, 9), Vec::<u8>::new());
    assert_eq!(apply_range(&data, 4, 2), Vec::<u8>::new());
}

#[test]
fn parse_compression() {
    assert_eq!(CompressionAlgo::parse_value("storage.compression", "lz4"), Ok(CompressionAlgo::Lz4));
    for v in ["none", "false", "disable", "disabled"] {
        assert_eq!(CompressionAlgo::parse_value("storage.compression", v), Ok(CompressionAlgo::Uncompressed));
    }
    assert_eq!(
        CompressionAlgo::parse_value("storage.compression", "zstd"),
        Err(InvalidCompression { key: "storage.compression".to_string(), value: "zstd".to_string() })
    );
    assert!(CompressionAlgo::parse_value("k", "").is_err());
}

#[test]
fn unframe_reports_a_bad_body() {
    assert_eq!(unframe_blob(CompressionAlgo::Lz4, vec![2, 0, 0, 0, 0x50, 0xA1]), Err(BlobError::Decompress));
    assert_eq!(unframe_blob(CompressionAlgo::Uncompressed, vec![1, 0xA1]), Ok(vec![1, 0xA1]));
}
