use rust_zip::error::ErrorKind;
use rust_zip::file::{BitReader, BitWriter, HuffmanFile};
use rust_zip::huffman::{Leaf, Tree};

#[test]
fn test_bit_writer_basic_push() {
    let mut buffer = Vec::new();
    let mut writer = BitWriter::new(&mut buffer);
    writer.push("101");
    assert!(writer.buffer.is_empty());
    writer.flush();
    assert_eq!(*writer.buffer, vec![160]);
}

#[test]
fn test_bit_writer_multiple_bytes() {
    let mut buffer = Vec::new();
    let mut writer = BitWriter::new(&mut buffer);

    writer.push("11111111");
    assert_eq!(*writer.buffer, vec![255]);

    writer.push("00000000");
    assert_eq!(*writer.buffer, vec![255, 0]);

    writer.push("1010");
    assert_eq!(*writer.buffer, vec![255, 0]);

    writer.flush();
    // 10100000 == 160
    assert_eq!(*writer.buffer, vec![255, 0, 160]);
}

#[test]
fn test_bit_writer_flush_empty() {
    let mut buffer = Vec::new();
    let mut writer = BitWriter::new(&mut buffer);
    writer.flush();
    assert!(writer.buffer.is_empty());

    writer.push("1");
    writer.flush();
    assert_eq!(*writer.buffer, vec![128]);

    writer.flush();
    assert_eq!(*writer.buffer, vec![128]);
}

#[test]
fn test_bit_reader_basic() {
    let buffer = vec![160]; // 10100000
    let mut reader = BitReader::new(&buffer, 8);

    assert_eq!(reader.read_bit(), Some(true));
    assert_eq!(reader.read_bit(), Some(false));
    assert_eq!(reader.read_bit(), Some(true));
    assert_eq!(reader.read_bit(), Some(false));
    assert_eq!(reader.read_bit(), Some(false));
    assert_eq!(reader.read_bit(), Some(false));
    assert_eq!(reader.read_bit(), Some(false));
    assert_eq!(reader.read_bit(), Some(false));
    assert_eq!(reader.read_bit(), None);
}

#[test]
fn test_bit_reader_empty() {
    let buffer = Vec::new();
    let mut reader = BitReader::new(&buffer, 0);
    assert_eq!(reader.read_bit(), None);
}

#[test]
fn test_bit_reader_multiple_bytes() {
    let buffer = vec![255, 0];
    let mut reader = BitReader::new(&buffer, 16);

    for _ in 0..8 {
        assert_eq!(reader.read_bit(), Some(true));
    }
    for _ in 0..8 {
        assert_eq!(reader.read_bit(), Some(false));
    }
    assert_eq!(reader.read_bit(), None);
}

#[test]
fn test_round_trip() {
    let mut buffer = Vec::new();
    let bit_string = "110110001100101"; // 15 bits
    {
        let mut writer = BitWriter::new(&mut buffer);
        writer.push(bit_string);
        writer.flush();
    }

    let mut reader = BitReader::new(&buffer, 16);
    let mut decoded = String::new();

    for _ in 0..15 {
        match reader.read_bit() {
            Some(true) => decoded.push('1'),
            Some(false) => decoded.push('0'),
            None => break,
        }
    }
    assert_eq!(decoded, bit_string);

    assert_eq!(reader.read_bit(), Some(false));

    assert_eq!(reader.read_bit(), None);
}

#[test]
fn test_huffman_file_validation() {
    let mut tree = Tree::new();
    tree.add_leaf(b'a');
    tree.add_leaf(b'b');
    tree.sort_nodes();
    tree.construct_tree().unwrap();

    let compressed_data = vec![1, 2, 3];
    let h_file = HuffmanFile::new(&tree, &compressed_data, 24);

    let mut written_bytes = Vec::new();
    h_file.write(&mut written_bytes);

    let mut read_buffer = Vec::new();
    let read_res = HuffmanFile::read(&written_bytes, &mut read_buffer);
    assert!(read_res.is_ok());
    let read_file = read_res.unwrap();
    assert_eq!(read_file, h_file);
    assert_eq!(read_buffer, compressed_data);

    let short_bytes = vec![b'Z', b'I', b'P'];
    let mut buf = Vec::new();
    let err_res = HuffmanFile::read(&short_bytes, &mut buf);
    assert!(err_res.is_err());
    let err = err_res.unwrap_err();
    assert_eq!(err.kind(), ErrorKind::InvalidData);
    assert!(err.to_string().contains("too short"));

    let mut wrong_magic = written_bytes.clone();
    wrong_magic[0..4].copy_from_slice(b"ZIP2");
    let mut buf = Vec::new();
    let err_res = HuffmanFile::read(&wrong_magic, &mut buf);
    assert!(err_res.is_err());
    let err = err_res.unwrap_err();
    assert_eq!(err.kind(), ErrorKind::InvalidData);
    assert!(err.to_string().contains("Invalid magic number"));
}

#[test]
fn writer_skips_other_characters() {
    let mut buffer = Vec::new();
    let mut writer = BitWriter::new(&mut buffer);
    writer.push("1 0-1x1");
    assert_eq!(writer.bit_count, 4);
    assert_eq!(writer.byte, 0b1011);
    writer.flush();
    assert_eq!(buffer, vec![0b1011_0000]);
}

#[test]
fn writer_push_code_most_significant_first() {
    let mut buffer = Vec::new();
    {
        let mut writer = BitWriter::new(&mut buffer);
        writer.push_code((0b101, 3));
        writer.push_code((0, 0));
        writer.push_code((0b11111, 5));
        writer.push_code((0b1, 2));
        writer.flush();
    }
    // 101 11111 01 -> 10111111 01000000
    assert_eq!(buffer, vec![0b1011_1111, 0b0100_0000]);
}

#[test]
fn writer_flush_pads_with_zeros() {
    let mut buffer = vec![7];
    {
        let mut writer = BitWriter::new(&mut buffer);
        writer.push("111");
        writer.flush();
        assert_eq!(writer.bit_count, 0);
        assert_eq!(writer.byte, 0);
    }
    assert_eq!(buffer, vec![7, 0b1110_0000]);
}

#[test]
fn reader_stops_at_total_bits() {
    let buffer = vec![0b1010_1010, 0xff];
    let mut reader = BitReader::new(&buffer, 3);
    assert_eq!(reader.read_bit(), Some(true));
    assert_eq!(reader.read_bit(), Some(false));
    assert_eq!(reader.read_bit(), Some(true));
    assert_eq!(reader.bits_read(), 3);
    assert_eq!(reader.read_bit(), None);
    assert_eq!(reader.bits_read(), 3);
}

#[test]
fn reader_stops_at_end_of_data() {
    let buffer = vec![0x01];
    let mut reader = BitReader::new(&buffer, 100);
    for _ in 0..7 {
        assert_eq!(reader.read_bit(), Some(false));
    }
    assert_eq!(reader.read_bit(), Some(true));
    assert_eq!(reader.read_bit(), None);
    assert_eq!(reader.bits_read(), 8);
}

#[test]
fn file_bytes_layout() {
    let leaves = vec![
        Leaf { frequency: 0x0102, data: b'x' },
        Leaf { frequency: 5, data: b'y' },
    ];
    let tree = Tree::import(&leaves);
    let mut tree = tree;
    tree.construct_tree().unwrap();
    let data = vec![0xab];
    let h = HuffmanFile::new(&tree, &data, 0x0304);
    assert_eq!(h.leaves, leaves);
    assert_eq!(h.data_len, 0x0304);
    let mut out = vec![9];
    h.write(&mut out);
    assert_eq!(
        out,
        vec![
            9, b'Z', b'I', b'P', b'1', 1, 0, 0, 0, 0, 0, 0, 1, 2, b'x', 0, 0, 0, 0, 0, 0, 0, 5,
            b'y', 0, 0, 0, 0, 0, 0, 3, 4, 0xab
        ]
    );
}

#[test]
fn file_read_errors_at_each_cut() {
    let leaves = vec![Leaf { frequency: 1, data: 1 }, Leaf { frequency: 2, data: 2 }];
    let mut tree = Tree::import(&leaves);
    tree.construct_tree().unwrap();
    let data = vec![1, 2];
    let h = HuffmanFile::new(&tree, &data, 9);
    let mut bytes = Vec::new();
    h.write(&mut bytes);

    let mut buf = Vec::new();
    let err = HuffmanFile::read(&bytes[..4], &mut buf).unwrap_err();
    assert_eq!(err.kind(), ErrorKind::UnexpectedEof);
    assert_eq!(err.to_string(), "Unexpected EOF reading leaf count");

    let mut buf = Vec::new();
    let err = HuffmanFile::read(&bytes[..14], &mut buf).unwrap_err();
    assert_eq!(err.kind(), ErrorKind::UnexpectedEof);
    assert_eq!(err.to_string(), "Unexpected EOF reading leaf data");
    assert!(buf.is_empty());

    assert!(HuffmanFile::readable(&bytes));
    assert!(!HuffmanFile::readable(&bytes[..25]));
    assert!(HuffmanFile::readable(&bytes[..22]));
    assert!(HuffmanFile::readable(&bytes[..3]));

    let mut buf = vec![100];
    let read = HuffmanFile::read(&bytes, &mut buf).unwrap();
    let (leaves_read, bits) = read.into_parts();
    assert_eq!(leaves_read, leaves);
    assert_eq!(bits, 9);
    assert_eq!(buf, vec![100, 1, 2]);
}

#[test]
fn reading_then_writing_gives_the_file_back() {
    let mut from = b"ZIP1".to_vec();
    from.push(1);
    for (freq, byte) in [(3u64, b'x'), (0u64, b'y')] {
        from.extend_from_slice(&freq.to_be_bytes());
        from.push(byte);
    }
    from.extend_from_slice(&13u64.to_be_bytes());
    from.extend_from_slice(&[0xab, 0xcd, 0xef]);
    let mut buffer = Vec::new();
    let file = HuffmanFile::read(&from, &mut buffer).unwrap();
    let mut out = Vec::new();
    file.write(&mut out);
    assert_eq!(out, from);
}

#[test]
fn pushing_in_parts_equals_pushing_at_once() {
    let mut b1 = Vec::new();
    let mut b2 = Vec::new();
    let (c1, c2);
    {
        let mut w1 = BitWriter::new(&mut b1);
        w1.push("1011 0");
        w1.push("01x111");
        let mut w2 = BitWriter::new(&mut b2);
        w2.push("1011 001x111");
        c1 = (w1.byte, w1.bit_count);
        c2 = (w2.byte, w2.bit_count);
    }
    assert_eq!(b1, b2);
    assert_eq!(b1, vec![0b1011_0011]);
    assert_eq!(c1, c2);
    assert_eq!(c1, (0b11, 2));
}
