use rust_zip::error::ErrorKind;
use rust_zip::file::{BitReader, BitWriter};
use rust_zip::huffman::{get_subtree, Branch, Leaf, Node, Tree};
use rust_zip::util::LUTEntry;

#[test]
fn test_tree_new() {
    let tree = Tree::new();
    assert!(tree.root.is_none());
    assert_eq!(tree.nodes.len(), 256);
    assert!(tree.nodes.iter().all(|x| x.is_none()));
    for i in 0..256 {
        assert!(tree.cache[i].is_none());
    }
}

#[test]
fn test_tree_import() {
    let leaves = vec![
        Leaf {
            frequency: 10,
            data: b'a',
        },
        Leaf {
            frequency: 0,
            data: b'b',
        },
        Leaf {
            frequency: 5,
            data: b'c',
        },
    ];
    let tree = Tree::import(&leaves);
    assert_eq!(
        tree.nodes,
        vec![
            Some(Node::Leaf(Leaf {
                frequency: 10,
                data: b'a'
            })),
            Some(Node::Leaf(Leaf {
                frequency: 5,
                data: b'c'
            })),
        ]
    );
}

#[test]
fn test_node_frequency() {
    let leaf = Node::Leaf(Leaf {
        data: b'a',
        frequency: 42,
    });
    assert_eq!(leaf.frequency(), 42);

    let branch = Node::Branch(Branch::new(100, 1, 2));
    assert_eq!(branch.frequency(), 100);
}

#[test]
fn test_add_leaf() {
    let mut tree = Tree::new();

    tree.add_leaf(b'A');
    assert_eq!(
        tree.nodes.iter().filter_map(|&x| x).collect::<Vec<_>>(),
        vec![Node::Leaf(Leaf {
            data: b'A',
            frequency: 1
        })]
    );

    tree.add_leaf(b'A');
    assert_eq!(
        tree.nodes.iter().filter_map(|&x| x).collect::<Vec<_>>(),
        vec![Node::Leaf(Leaf {
            data: b'A',
            frequency: 2
        })]
    );

    tree.add_leaf(b'B');
    assert_eq!(
        tree.nodes.iter().filter_map(|&x| x).collect::<Vec<_>>(),
        vec![
            Node::Leaf(Leaf {
                data: b'A',
                frequency: 2
            }),
            Node::Leaf(Leaf {
                data: b'B',
                frequency: 1
            }),
        ]
    );
}

#[test]
fn test_merge() {
    let mut tree1 = Tree::new();
    tree1.add_leaf(b'A');
    tree1.add_leaf(b'B');

    let mut tree2 = Tree::new();
    tree2.add_leaf(b'A');
    tree2.add_leaf(b'C');

    let merged = Tree::merge(vec![tree1, tree2]);

    assert_eq!(
        merged.nodes.iter().filter_map(|&x| x).collect::<Vec<_>>(),
        vec![
            Node::Leaf(Leaf {
                data: b'A',
                frequency: 2
            }),
            Node::Leaf(Leaf {
                data: b'B',
                frequency: 1
            }),
            Node::Leaf(Leaf {
                data: b'C',
                frequency: 1
            }),
        ]
    );
}

#[test]
fn test_sort_nodes() {
    let mut tree = Tree::new();

    tree.add_leaf(b'A');
    tree.add_leaf(b'A');
    tree.add_leaf(b'A');

    tree.add_leaf(b'B');

    tree.add_leaf(b'C');
    tree.add_leaf(b'C');

    tree.sort_nodes();

    assert_eq!(
        tree.nodes,
        vec![
            Some(Node::Leaf(Leaf {
                data: b'B',
                frequency: 1
            })),
            Some(Node::Leaf(Leaf {
                data: b'C',
                frequency: 2
            })),
            Some(Node::Leaf(Leaf {
                data: b'A',
                frequency: 3
            })),
        ]
    );
}

#[test]
fn test_construct_tree_empty() {
    let mut tree = Tree::new();
    let result = tree.construct_tree();
    assert!(result.is_err());
    let err = result.unwrap_err();
    assert_eq!(err.kind(), ErrorKind::InvalidData);
    assert_eq!(err.to_string(), "Input file is empty.");
}

#[test]
fn test_construct_tree_single() {
    let mut tree = Tree::new();
    tree.add_leaf(b'X');
    assert!(tree.construct_tree().is_ok());
    assert_eq!(tree.root, Some(0));
    tree.populate_cache(None, None);

    assert_eq!(tree.find_leaf(b'X'), Some((0, 0)));
    assert_eq!(tree.find_leaf(b'Y'), None);
}

fn build_abc_tree() -> Tree {
    let mut tree = Tree::new();
    tree.add_leaf(b'A');
    tree.add_leaf(b'A');
    tree.add_leaf(b'A');
    tree.add_leaf(b'B');
    tree.add_leaf(b'B');
    tree.add_leaf(b'C');
    tree.sort_nodes();
    tree.construct_tree().unwrap();
    tree.populate_cache(None, None);
    tree
}

#[test]
fn test_construct_tree_multiple() {
    let tree = build_abc_tree();

    assert_eq!(tree.find_leaf(b'A'), Some((0, 1)));
    assert_eq!(tree.find_leaf(b'C'), Some((2, 2)));
    assert_eq!(tree.find_leaf(b'B'), Some((3, 2)));

    assert_eq!(tree.find_leaf(b'D'), None);
}

#[test]
fn test_get_next_leaf() {
    let tree = build_abc_tree();

    let buffer = vec![0x70];
    let mut reader = BitReader::new(&buffer, 8);

    assert_eq!(tree.get_next_leaf(&mut reader), Some(b'A'));
    assert_eq!(tree.get_next_leaf(&mut reader), Some(b'B'));
    assert_eq!(tree.get_next_leaf(&mut reader), Some(b'C'));
    assert_eq!(tree.get_next_leaf(&mut reader), Some(b'A'));
}

#[test]
fn test_get_next_leaf_incomplete() {
    let tree = build_abc_tree();

    let buffer = Vec::new();
    let mut reader = BitReader::new(&buffer, 0);

    assert_eq!(tree.get_next_leaf(&mut reader), None);
}

#[test]
fn test_huffman_round_trip() {
    let input_bytes = b"hello world huffman encoding test";
    let mut tree = Tree::new();
    for &byte in input_bytes {
        tree.add_leaf(byte);
    }
    tree.sort_nodes();
    tree.construct_tree().unwrap();
    tree.populate_cache(None, None);

    let mut buffer = Vec::new();
    let bit_count = {
        let mut writer = BitWriter::new(&mut buffer);
        for &byte in input_bytes {
            let bits = tree.find_leaf(byte).unwrap();
            writer.push_code(bits);
        }
        let count = (writer.buffer.len() * 8 + writer.bit_count as usize) as u64;
        writer.flush();
        count
    };

    let mut reader = BitReader::new(&buffer, bit_count);
    let mut decoded_bytes = Vec::new();

    for _ in 0..input_bytes.len() {
        if let Some(byte) = tree.get_next_leaf(&mut reader) {
            decoded_bytes.push(byte);
        } else {
            break;
        }
    }

    assert_eq!(decoded_bytes, input_bytes);
}

#[test]
fn test_single_symbol_repeated() {
    let input_bytes = b"AAAAAA";
    let mut tree = Tree::new();
    for &byte in input_bytes {
        tree.add_leaf(byte);
    }
    tree.sort_nodes();
    tree.construct_tree().unwrap();
    tree.populate_cache(None, None);

    let bits = tree.find_leaf(b'A').unwrap();
    assert_eq!(bits, (0, 0));

    let mut buffer = Vec::new();
    {
        let mut writer = BitWriter::new(&mut buffer);
        for &_ in input_bytes {
            writer.push_code(bits);
        }
        writer.flush();
    }

    assert!(buffer.is_empty());
}

#[test]
fn test_leaf_clone_and_copy() {
    let leaf = Leaf {
        data: b'A',
        frequency: 10,
    };
    let cloned_leaf = leaf;
    assert_eq!(cloned_leaf, leaf);

    let copied_leaf = leaf;
    assert_eq!(copied_leaf, leaf);
}

#[test]
fn test_node_clone_and_copy() {
    let leaf = Node::Leaf(Leaf {
        data: b'A',
        frequency: 10,
    });
    let cloned_node = leaf;
    assert_eq!(cloned_node, leaf);

    let copied_node = leaf;
    assert_eq!(copied_node, leaf);

    let branch = Node::Branch(Branch::new(100, 1, 2));
    let cloned_branch = branch;
    assert_eq!(cloned_branch, branch);

    let copied_branch = branch;
    assert_eq!(copied_branch, branch);
}

#[test]
fn subtree_counts_each_byte() {
    let tree = get_subtree(b"abca");
    assert_eq!(tree.nodes.len(), 256);
    assert_eq!(tree.nodes[b'a' as usize], Some(Node::Leaf(Leaf { frequency: 2, data: b'a' })));
    assert_eq!(tree.nodes[b'b' as usize], Some(Node::Leaf(Leaf { frequency: 1, data: b'b' })));
    assert_eq!(tree.nodes[b'z' as usize], None);
    assert!(tree.root.is_none());
}

#[test]
fn merging_chunk_counts_counts_the_whole() {
    let whole = get_subtree(b"abracadabra");
    let merged = Tree::merge(vec![get_subtree(b"abra"), get_subtree(b"cad"), get_subtree(b""), get_subtree(b"abra")]);
    assert_eq!(merged.nodes, whole.nodes);
}

#[test]
fn sort_keeps_equal_frequencies_in_order() {
    let mut tree = Tree::import(&[
        Leaf { frequency: 2, data: 1 },
        Leaf { frequency: 1, data: 2 },
        Leaf { frequency: 2, data: 3 },
        Leaf { frequency: 1, data: 4 },
    ]);
    tree.nodes.insert(1, None);
    tree.sort_nodes();
    let order: Vec<u8> = tree
        .nodes
        .iter()
        .map(|n| match n {
            Some(Node::Leaf(l)) => l.data,
            _ => 0,
        })
        .collect();
    assert_eq!(order, vec![2, 4, 1, 3]);
}

#[test]
fn construct_merges_lightest_first() {
    let mut tree = Tree::import(&[
        Leaf { frequency: 1, data: b'a' },
        Leaf { frequency: 1, data: b'b' },
        Leaf { frequency: 2, data: b'c' },
        Leaf { frequency: 5, data: b'd' },
    ]);
    tree.construct_tree().unwrap();
    assert_eq!(tree.nodes.len(), 7);
    assert_eq!(tree.root, Some(6));
    assert_eq!(tree.nodes[4], Some(Node::Branch(Branch::new(2, 0, 1))));
    assert_eq!(tree.nodes[5], Some(Node::Branch(Branch::new(4, 2, 4))));
    assert_eq!(tree.nodes[6], Some(Node::Branch(Branch::new(9, 5, 3))));
    tree.populate_cache(None, None);
    assert_eq!(tree.find_leaf(b'd'), Some((1, 1)));
    assert_eq!(tree.find_leaf(b'c'), Some((0, 2)));
    assert_eq!(tree.find_leaf(b'a'), Some((2, 3)));
    assert_eq!(tree.find_leaf(b'b'), Some((3, 3)));
}

#[test]
fn lookup_table_of_abc_tree() {
    let tree = build_abc_tree();
    let lut = tree.build_lut();
    assert_eq!(lut.len(), 256);
    assert_eq!(lut[0x00], LUTEntry { length: 1, byte: b'A' });
    assert_eq!(lut[0x7f], LUTEntry { length: 1, byte: b'A' });
    assert_eq!(lut[0x80], LUTEntry { length: 2, byte: b'C' });
    assert_eq!(lut[0xc0], LUTEntry { length: 2, byte: b'B' });
    assert_eq!(lut[0xff], LUTEntry { length: 2, byte: b'B' });
}

#[test]
fn encode_then_decode() {
    let tree = build_abc_tree();
    let (buffer, bits) = tree.encode(b"ABCA").unwrap();
    // 0 11 10 0
    assert_eq!(bits, 6);
    assert_eq!(buffer, vec![0b0111_0000]);
    let mut reader = BitReader::new(&buffer, bits);
    assert_eq!(tree.decode(&mut reader), b"ABCA".to_vec());
    assert!(tree.encode(b"ABD").is_none());
    let (empty, none) = tree.encode(b"").unwrap();
    assert!(empty.is_empty());
    assert_eq!(none, 0);
}

#[test]
fn decode_stops_at_incomplete_symbol() {
    let tree = build_abc_tree();
    let buffer = vec![0b0111_0000];
    let mut reader = BitReader::new(&buffer, 5);
    assert_eq!(tree.decode(&mut reader), b"ABC".to_vec());
    let mut reader = BitReader::new(&buffer, 2);
    assert_eq!(tree.decode(&mut reader), b"A".to_vec());
}

#[test]
fn hand_built_tree_with_root_first() {
    let mut tree = Tree::new();
    tree.nodes = vec![
        Some(Node::Branch(Branch::new(3, 1, 2))),
        Some(Node::Leaf(Leaf {
            frequency: 1,
            data: b'a',
        })),
        Some(Node::Leaf(Leaf {
            frequency: 2,
            data: b'b',
        })),
        None,
    ];
    tree.root = Some(0);

    let buffer = vec![0b1000_0000];
    let mut reader = BitReader::new(&buffer, 2);
    assert_eq!(tree.get_next_leaf(&mut reader), Some(b'b'));
    assert_eq!(tree.get_next_leaf(&mut reader), Some(b'a'));
    assert_eq!(tree.get_next_leaf(&mut reader), None);

    tree.populate_cache(None, None);
    assert_eq!(tree.find_leaf(b'a'), Some((0, 1)));
    assert_eq!(tree.find_leaf(b'b'), Some((1, 1)));
    assert_eq!(tree.find_leaf(b'c'), None);
}

#[test]
fn lookup_table_matches_decoding_one_symbol() {
    let text = b"hello world huffman encoding test";
    let tree = {
        let mut tree = get_subtree(text);
        tree.sort_nodes();
        tree.construct_tree().unwrap();
        tree
    };
    let lut = tree.build_lut();
    for b in 0..=255u8 {
        let entry = lut[b as usize];
        if entry.length > 0 {
            let buffer = vec![b, 0x5a];
            let mut reader = BitReader::new(&buffer, 16);
            assert_eq!(tree.get_next_leaf(&mut reader), Some(entry.byte));
            assert_eq!(reader.bits_read(), entry.length as u64);
        }
    }
}
