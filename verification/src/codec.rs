//! Compressing a byte sequence into a file and decompressing it again.
use vstd::prelude::*;
use crate::error::ZipError;
use crate::file::{
    be_value, bits_of_bytes, cut_in_bit_count, data_len_at, file_bytes, leaf_at, leaf_count_for,
    leaves_among, leaves_at, lemma_read_written, magic_bytes, parse_file, read_be, zeros,
    BitReader, HuffmanFile,
};
use crate::huffman::{
    all_positive_leaves, all_some, built_nodes, children_before, codes_of, decode_from,
    empty_cache, encoded, filter_some, imported_nodes, lemma_decode_encoded,
    lemma_filter_some, lemma_filter_some_all_some, lemma_filter_some_positive, lemma_paths_fit_built,
    lemma_sort_keeps, no_codes, slot_freq, sort_by_freq, total_freq, usable, Leaf, Node, Tree,
};

verus! {

/// A frequency table fit to compress with: at most 256 slots, each empty
/// or holding a leaf of nonzero frequency, the frequencies adding up to a
/// 64-bit number.
pub open spec fn valid_counts(nodes: Seq<Option<Node>>) -> bool {
    &&& nodes.len() <= 256
    &&& forall|i: int|
        0 <= i < nodes.len() ==> (#[trigger] nodes[i] is None || (nodes[i] matches Some(
            Node::Leaf(l),
        ) && l.frequency > 0))
    &&& total_freq(filter_some(nodes)) <= u64::MAX
}

/// The leaves compression builds its tree over: the occupied slots, sorted
/// by frequency.
pub open spec fn sorted_leaves(counts: Seq<Option<Node>>) -> Seq<Option<Node>> {
    sort_by_freq(filter_some(counts))
}

/// The nodes of the tree compression builds.
pub open spec fn tree_for(counts: Seq<Option<Node>>) -> Seq<Option<Node>> {
    built_nodes(sorted_leaves(counts))
}

/// The index of that tree's root.
pub open spec fn root_for(counts: Seq<Option<Node>>) -> int {
    2 * filter_some(counts).len() - 2
}

/// The code words compression uses.
pub open spec fn codes_for(counts: Seq<Option<Node>>) -> Seq<Option<(u32, u8)>> {
    codes_of(tree_for(counts), root_for(counts))
}

/// `buf` holds `bits`, padded with zero bits to whole bytes.
pub open spec fn packs(buf: Seq<u8>, bits: Seq<bool>) -> bool {
    &&& bits.len() <= 8 * buf.len() < bits.len() + 8
    &&& bits_of_bytes(buf) == bits + zeros((8 * buf.len() - bits.len()) as nat)
}

/// Decompressing `bytes` neither overflows adding up the frequencies of
/// its leaves, nor decodes forever with a tree of a single leaf, nor runs
/// out of bytes inside the bit count.
pub open spec fn decompressible(bytes: Seq<u8>) -> bool {
    &&& !cut_in_bit_count(bytes)
    &&& parse_file(bytes) matches Ok(p) ==> total_freq(imported_nodes(p.1)) <= u64::MAX
        && imported_nodes(p.1).len() != 1
}

/// What decompressing `bytes` gives: the error of reading the file, the
/// error of a tree over no leaves, or the bytes decoded from the stated
/// number of bits of compressed data with the tree built over the leaves
/// of nonzero frequency, in their order.
pub open spec fn decompressed(bytes: Seq<u8>) -> Result<Seq<u8>, ZipError> {
    match parse_file(bytes) {
        Err(e) => Err(e),
        Ok(p) => {
            let s = imported_nodes(p.1);
            if s.len() == 0 {
                Err(ZipError::EmptyInput)
            } else {
                let data = bytes.skip(p.3);
                let limit: int = if p.2 <= 8 * data.len() {
                    p.2 as int
                } else {
                    (8 * data.len()) as int
                };
                Ok(decode_from(built_nodes(s), 2 * s.len() - 2, bits_of_bytes(data).take(limit), 0))
            }
        },
    }
}

proof fn lemma_leaves_of_positive(s: Seq<Option<Node>>)
    requires
        all_positive_leaves(s),
    ensures
        leaves_among(s).len() == s.len(),
        imported_nodes(leaves_among(s)) == s,
    decreases s.len(),
{
    if s.len() > 0 {
        let r = s.drop_last();
        assert(all_positive_leaves(r));
        lemma_leaves_of_positive(r);
        assert(s[s.len() - 1] == s.last());
        let l = leaves_among(s);
        assert(l.drop_last() =~= leaves_among(r));
        assert(r.push(s.last()) =~= s);
    } else {
        assert(imported_nodes(leaves_among(s)) =~= s);
    }
}

proof fn lemma_imported_positive(leaves: Seq<Leaf>)
    ensures
        all_positive_leaves(imported_nodes(leaves)),
        all_some(imported_nodes(leaves)),
        imported_nodes(leaves).len() <= leaves.len(),
    decreases leaves.len(),
{
    if leaves.len() > 0 {
        lemma_imported_positive(leaves.drop_last());
    }
}

proof fn lemma_leaves_children(s: Seq<Option<Node>>)
    requires
        all_positive_leaves(s),
    ensures
        children_before(s),
        all_some(s),
{
    assert forall|i: int| 0 <= i < s.len() implies #[trigger] s[i] is Some by {
        assert(s[i] matches Some(Node::Leaf(_)));
    }
}

/// Compresses `data` with the frequency table `counts`: builds the tree
/// over the occupied slots sorted by frequency, reads the code words off
/// it, encodes `data` and writes the file. Fails where the table has no
/// leaf, or where a byte of `data` gets no code word of at most 32 bits.
/// With a tree of two leaves or more, decompressing the file gives `data`
/// back.
pub fn compress(counts: Tree, data: &[u8]) -> (res: Result<Vec<u8>, ZipError>)
    requires
        valid_counts(counts.nodes@),
        no_codes(counts.cache@),
        32 * data@.len() <= u64::MAX,
    ensures
        filter_some(counts.nodes@).len() == 0 <==> res == Err::<Vec<u8>, ZipError>(
            ZipError::EmptyInput,
        ),
        res == Err::<Vec<u8>, ZipError>(ZipError::NoCodeWord) <==> filter_some(counts.nodes@).len()
            > 0 && exists|i: int|
            0 <= i < data@.len() && !usable(#[trigger] codes_for(counts.nodes@)[data@[i] as int]),
        res is Err ==> res == Err::<Vec<u8>, ZipError>(ZipError::EmptyInput) || res == Err::<
            Vec<u8>,
            ZipError,
        >(ZipError::NoCodeWord),
        res matches Ok(out) ==> exists|buf: Seq<u8>|
            packs(buf, encoded(codes_for(counts.nodes@), data@)) && out@ == file_bytes(
                magic_bytes(),
                (filter_some(counts.nodes@).len() - 1) as u8,
                leaves_among(sorted_leaves(counts.nodes@)),
                encoded(codes_for(counts.nodes@), data@).len() as u64,
                buf,
            ),
        res matches Ok(out) ==> (filter_some(counts.nodes@).len() >= 2 ==> decompressible(out@)
            && decompressed(out@) == Ok::<Seq<u8>, ZipError>(data@)),
{
    let ghost l = filter_some(counts.nodes@);
    let ghost s = sort_by_freq(l);
    let ghost n = l.len();
    proof {
        lemma_filter_some(counts.nodes@);
        lemma_filter_some_positive(counts.nodes@);
        lemma_sort_keeps(l);
        assert(counts.cache@ =~= empty_cache());
    }
    let mut tree = counts;
    tree.sort_nodes();
    proof {
        lemma_filter_some_all_some(s);
        lemma_leaves_children(s);
    }
    match tree.construct_tree() {
        Err(e) => {
            return Err(e);
        },
        Ok(()) => {},
    }
    let ghost b = tree.nodes@;
    let ghost root = 2 * n - 2;
    proof {
        assert forall|j: int| 0 <= j < n && j < b.len() implies #[trigger] b[j] matches Some(
            Node::Leaf(_),
        ) by {
            assert(b.take(n as int)[j] == b[j]);
        }
        lemma_paths_fit_built(b, n as int, root, 0);
    }
    tree.populate_cache(None, None);
    proof {
        assert(tree.cache@ == codes_for(counts.nodes@));
    }
    let (buffer, bit_count) = match tree.encode(data) {
        Some(r) => r,
        None => {
            return Err(ZipError::NoCodeWord);
        },
    };
    let h = HuffmanFile::new(&tree, &buffer, bit_count);
    let mut output: Vec<u8> = Vec::new();
    h.write(&mut output);
    proof {
        assert(b.take(n as int) == s);
        assert(b.len() == 2 * n - 1);
        assert(leaf_count_for(b.len()) == n - 1);
        assert(b.take(leaf_count_for(b.len()) as int + 1) == s);
        lemma_leaves_of_positive(s);
        assert(packs(buffer@, encoded(codes_for(counts.nodes@), data@)));
        if n >= 2 {
            lemma_read_written(h);
            let bytes = output@;
            assert(output@ =~= h.bytes());
            let data_start = data_len_at(h.stored_leaf_count()) + 8;
            assert(bytes.skip(data_start) == buffer@);
            assert(bits_of_bytes(buffer@).take(bit_count as int) =~= encoded(
                codes_for(counts.nodes@),
                data@,
            ));
            lemma_decode_encoded(b, root, data@);
        }
    }
    Ok(output)
}

/// Decompresses the file `bytes`: reads it, builds the tree over its leaves
/// of nonzero frequency, in their order, and decodes the stated number of
/// bits of compressed data.
pub fn decompress(bytes: &[u8]) -> (res: Result<Vec<u8>, ZipError>)
    requires
        decompressible(bytes@),
    ensures
        res matches Ok(v) ==> decompressed(bytes@) == Ok::<Seq<u8>, ZipError>(v@),
        res matches Err(e) ==> decompressed(bytes@) == Err::<Seq<u8>, ZipError>(e),
{
    let mut buffer: Vec<u8> = Vec::new();
    let (leaves, data_len) = match HuffmanFile::read(bytes, &mut buffer) {
        Ok(h) => h.into_parts(),
        Err(e) => {
            return Err(e);
        },
    };
    let ghost p = parse_file(bytes@).unwrap();
    let mut tree = Tree::import(&leaves);
    proof {
        lemma_imported_positive(leaves@);
        lemma_leaves_children(tree.nodes@);
        lemma_filter_some_all_some(tree.nodes@);
    }
    match tree.construct_tree() {
        Err(e) => {
            return Err(e);
        },
        Ok(()) => {},
    }
    let mut reader = BitReader::new(&buffer, data_len);
    proof {
        assert(buffer@ =~= bytes@.skip(p.3));
        crate::huffman::lemma_linked_paths_inside(
            tree.nodes@,
            tree.root.unwrap() as int,
            (reader.limit() - reader.position()) as nat,
        );
    }
    let out = tree.decode(&mut reader);
    Ok(out)
}

/// Whether `bytes` can be decompressed (see `decompressible`).
pub fn check_decompressible(bytes: &[u8]) -> (ok: bool)
    ensures
        ok == decompressible(bytes@),
{
    if !HuffmanFile::readable(bytes) {
        return false;
    }
    if bytes.len() < 5 || bytes[0] != 0x5au8 || bytes[1] != 0x49u8 || bytes[2] != 0x50u8 || bytes[3]
        != 0x31u8 {
        proof {
            if bytes@.len() >= 5 {
                assert(bytes@.take(4)[0] == bytes@[0]);
                assert(bytes@.take(4)[1] == bytes@[1]);
                assert(bytes@.take(4)[2] == bytes@[2]);
                assert(bytes@.take(4)[3] == bytes@[3]);
            }
        }
        return true;
    }
    proof {
        assert(bytes@.take(4) =~= magic_bytes());
    }
    let count: usize = bytes[4] as usize + 1;
    if bytes.len() < 5 + 9 * count {
        return true;
    }
    let ghost leaves = leaves_at(bytes@);
    let mut sum: u64 = 0;
    let mut overflow: bool = false;
    let mut nonzero: usize = 0;
    let mut k: usize = 0;
    proof {
        assert(leaves.take(0) =~= Seq::<Leaf>::empty());
    }
    while k < count
        invariant
            count == bytes@[4] as int + 1,
            bytes@.len() >= 5 + 9 * count,
            leaves == leaves_at(bytes@),
            0 <= k <= count,
            nonzero == imported_nodes(leaves.take(k as int)).len(),
            !overflow ==> sum == total_freq(imported_nodes(leaves.take(k as int))),
            overflow ==> total_freq(imported_nodes(leaves.take(k as int))) > u64::MAX,
            nonzero <= k,
        decreases count - k,
    {
        let f = read_be(bytes, 5 + 9 * k);
        let ghost prev = imported_nodes(leaves.take(k as int));
        proof {
            assert(leaves.take(k + 1).drop_last() =~= leaves.take(k as int));
            assert(leaves[k as int] == leaf_at(bytes@, k as int));
        }
        if f > 0 {
            proof {
                let x = Some(Node::Leaf(leaves[k as int]));
                assert(imported_nodes(leaves.take(k + 1)) == prev.push(x));
                crate::huffman::lemma_total_push(prev, x);
            }
            nonzero = nonzero + 1;
            if !overflow {
                match sum.checked_add(f) {
                    Some(t) => {
                        sum = t;
                    },
                    None => {
                        overflow = true;
                    },
                }
            }
        }
        k = k + 1;
    }
    proof {
        assert(leaves.take(k as int) =~= leaves);
    }
    !overflow && nonzero != 1
}

} // verus!
