use rust_zip::codec::{check_decompressible, compress, decompress};
use rust_zip::error::{ErrorKind, ZipError};
use rust_zip::huffman::{get_subtree, Leaf, Node, Tree};
use rust_zip::file::HuffmanFile;

fn round_trip(data: &[u8]) -> Vec<u8> {
    let out = compress(get_subtree(data), data).unwrap();
    assert!(check_decompressible(&out));
    decompress(&out).unwrap()
}

#[test]
fn compress_then_decompress_gives_data_back() {
    let text = b"Lorem ipsum dolor sit amet consectetur adipiscing elit.";
    assert_eq!(round_trip(text), text.to_vec());
    let all: Vec<u8> = (0..=255u8).chain(0..=255u8).collect();
    assert_eq!(round_trip(&all), all);
    assert_eq!(round_trip(b"ab"), b"ab".to_vec());
}

#[test]
fn compressed_file_layout() {
    let out = compress(get_subtree(b"aab"), b"aab").unwrap();
    // leaves sorted by frequency: b (1), a (2); codes b = 0, a = 1
    assert_eq!(
        out,
        vec![
            b'Z', b'I', b'P', b'1', 1, 0, 0, 0, 0, 0, 0, 0, 1, b'b', 0, 0, 0, 0, 0, 0, 0, 2, b'a',
            0, 0, 0, 0, 0, 0, 0, 3, 0b1100_0000
        ]
    );
}

#[test]
fn compress_counts_from_chunks() {
    let data = b"mississippi river";
    let counts = Tree::merge(vec![get_subtree(&data[..5]), get_subtree(&data[5..])]);
    let out = compress(counts, data).unwrap();
    assert_eq!(decompress(&out).unwrap(), data.to_vec());
}

#[test]
fn compress_errors() {
    let err = compress(Tree::new(), b"").unwrap_err();
    assert_eq!(err, ZipError::EmptyInput);
    assert_eq!(err.kind(), ErrorKind::InvalidData);
    let err = compress(get_subtree(b"ab"), b"abc").unwrap_err();
    assert_eq!(err, ZipError::NoCodeWord);
    assert_eq!(err.to_string(), "No code word of at most 32 bits for a byte");
}

#[test]
fn single_symbol_file_is_not_decompressible() {
    let out = compress(get_subtree(b"AAAA"), b"AAAA").unwrap();
    assert!(!check_decompressible(&out));
}

#[test]
fn decompress_errors() {
    assert!(check_decompressible(b"some compressed data"));
    assert_eq!(decompress(b"some compressed data").unwrap_err(), ZipError::InvalidMagic);
    assert_eq!(decompress(b"ZI").unwrap_err(), ZipError::TooShort);
    let mut bytes = b"ZIP1".to_vec();
    bytes.push(0);
    bytes.extend_from_slice(&0u64.to_be_bytes());
    bytes.push(1);
    bytes.extend_from_slice(&0u64.to_be_bytes());
    assert!(check_decompressible(&bytes));
    assert_eq!(decompress(&bytes).unwrap_err(), ZipError::EmptyInput);
}

#[test]
fn overflowing_frequencies_are_not_decompressible() {
    let mut bytes = b"ZIP1".to_vec();
    bytes.push(1);
    for leaf in [Leaf { frequency: u64::MAX, data: 1 }, Leaf { frequency: 1, data: 2 }] {
        bytes.extend_from_slice(&leaf.frequency.to_be_bytes());
        bytes.push(leaf.data);
    }
    bytes.extend_from_slice(&0u64.to_be_bytes());
    assert!(!check_decompressible(&bytes));
    let mut buf = Vec::new();
    let file = HuffmanFile::read(&bytes, &mut buf).unwrap();
    assert_eq!(file.leaves.len(), 2);
}

#[test]
fn error_messages_and_kinds() {
    assert_eq!(ZipError::TooShort.to_string(), "File too short to contain magic number");
    assert_eq!(ZipError::InvalidMagic.to_string(), "Invalid magic number");
    assert_eq!(ZipError::MissingLeafCount.kind(), ErrorKind::UnexpectedEof);
    assert_eq!(ZipError::MissingLeafData.kind(), ErrorKind::UnexpectedEof);
    assert_eq!(ZipError::NoCodeWord.kind(), ErrorKind::InvalidData);
}

fn fibonacci_counts(n: usize) -> Tree {
    let mut counts = Tree::new();
    let (mut a, mut b) = (1u64, 1u64);
    for i in 0..n {
        counts.nodes[i] = Some(Node::Leaf(Leaf {
            frequency: a,
            data: i as u8,
        }));
        let c = a + b;
        a = b;
        b = c;
    }
    counts
}

#[test]
fn code_words_longer_than_32_bits_are_refused() {
    // Fibonacci frequencies make the tree a chain: the rarest byte sits 39 branches deep.
    assert_eq!(compress(fibonacci_counts(40), &[0]).unwrap_err(), ZipError::NoCodeWord);
    let out = compress(fibonacci_counts(40), &[39, 38, 39]).unwrap();
    assert_eq!(decompress(&out).unwrap(), vec![39, 38, 39]);
}
