//! The Huffman tree: frequency counting, the tree built by merging the two
//! lightest nodes, the code words read off it, and decoding with it.
use vstd::prelude::*;
use crate::error::ZipError;
use crate::file::{bits_of_bytes, code_bits, zeros, BitReader, BitWriter};
use crate::util::LUTEntry;

verus! {

/// A byte value and how often it occurs.
#[derive(Clone, Copy, Debug, PartialEq, Eq)]
pub struct Leaf {
    pub frequency: u64,
    pub data: u8,
}

/// An inner node: its frequency and the indexes of its two children.
#[derive(Clone, Copy, Debug, PartialEq, Eq)]
pub struct Branch {
    frequency: u64,
    left: u64,
    right: u64,
}

impl Branch {
    /// The frequency of the branch: that of its two children together.
    pub closed spec fn freq(self) -> u64 {
        self.frequency
    }

    /// The index of the child reached by a `0` bit.
    pub closed spec fn left_child(self) -> u64 {
        self.left
    }

    /// The index of the child reached by a `1` bit.
    pub closed spec fn right_child(self) -> u64 {
        self.right
    }

    /// The branch of frequency `frequency` over nodes `left` and `right`.
    pub closed spec fn of(frequency: u64, left: u64, right: u64) -> Self {
        Branch { frequency, left, right }
    }

    /// The branch of frequency `frequency` over the nodes at `left` and `right`.
    pub fn new(frequency: u64, left: u64, right: u64) -> (b: Self)
        ensures
            b == Branch::of(frequency, left, right),
            b.freq() == frequency,
            b.left_child() == left,
            b.right_child() == right,
    {
        Branch { frequency, left, right }
    }
}

/// What `Branch::of` builds: a branch with the frequency and the children
/// given.
pub proof fn lemma_branch_of(frequency: u64, left: u64, right: u64)
    ensures
        Branch::of(frequency, left, right).freq() == frequency,
        Branch::of(frequency, left, right).left_child() == left,
        Branch::of(frequency, left, right).right_child() == right,
{
}

/// A branch is the one `Branch::of` builds from its frequency and children.
pub proof fn lemma_branch_parts(b: Branch)
    ensures
        b == Branch::of(b.freq(), b.left_child(), b.right_child()),
{
}

#[derive(Clone, Copy, Debug, PartialEq, Eq)]
pub enum Node {
    Leaf(Leaf),
    Branch(Branch),
}

impl Node {
    /// The frequency of the node.
    pub open spec fn freq(self) -> u64 {
        match self {
            Node::Leaf(l) => l.frequency,
            Node::Branch(b) => b.freq(),
        }
    }

    /// The frequency of the node.
    pub fn frequency(&self) -> (f: u64)
        ensures
            f == self.freq(),
    {
        match self {
            Node::Leaf(leaf) => leaf.frequency,
            Node::Branch(branch) => branch.frequency,
        }
    }
}

/// How often `b` occurs in `s`.
pub open spec fn count_of(s: Seq<u8>, b: u8) -> nat
    decreases s.len(),
{
    if s.len() == 0 {
        0
    } else {
        count_of(s.drop_last(), b) + if s.last() == b {
            1nat
        } else {
            0nat
        }
    }
}

/// The table of byte frequencies of `s`: slot `b` holds a leaf for `b` with
/// its count, or nothing where `b` does not occur.
pub open spec fn count_nodes(s: Seq<u8>) -> Seq<Option<Node>> {
    Seq::new(
        256,
        |i: int|
            if count_of(s, i as u8) > 0 {
                Some(Node::Leaf(Leaf { frequency: count_of(s, i as u8) as u64, data: i as u8 }))
            } else {
                None
            },
    )
}

/// The nodes of all the trees, one tree after another.
pub open spec fn flat_nodes(trees: Seq<Tree>) -> Seq<Option<Node>>
    decreases trees.len(),
{
    if trees.len() == 0 {
        Seq::empty()
    } else {
        flat_nodes(trees.drop_last()) + trees.last().nodes@
    }
}

/// How many leaves for `b` there are among `nodes`.
pub open spec fn leaves_for(nodes: Seq<Option<Node>>, b: u8) -> nat
    decreases nodes.len(),
{
    if nodes.len() == 0 {
        0
    } else {
        leaves_for(nodes.drop_last(), b) + match nodes.last() {
            Some(Node::Leaf(l)) => if l.data == b {
                1nat
            } else {
                0nat
            },
            _ => 0nat,
        }
    }
}

/// The frequencies of the leaves for `b` among `nodes`, added up.
pub open spec fn frequency_for(nodes: Seq<Option<Node>>, b: u8) -> nat
    decreases nodes.len(),
{
    if nodes.len() == 0 {
        0
    } else {
        frequency_for(nodes.drop_last(), b) + match nodes.last() {
            Some(Node::Leaf(l)) => if l.data == b {
                l.frequency as nat
            } else {
                0nat
            },
            _ => 0nat,
        }
    }
}

/// The table that merging leaves `nodes` gives: slot `b` holds one leaf for
/// `b` with the frequencies of all leaves for `b` added up.
pub open spec fn merged_nodes(nodes: Seq<Option<Node>>) -> Seq<Option<Node>> {
    Seq::new(
        256,
        |i: int|
            if leaves_for(nodes, i as u8) > 0 {
                Some(
                    Node::Leaf(
                        Leaf { frequency: frequency_for(nodes, i as u8) as u64, data: i as u8 },
                    ),
                )
            } else {
                None
            },
    )
}

/// The leaves with a nonzero frequency, as nodes, in order.
pub open spec fn imported_nodes(leaves: Seq<Leaf>) -> Seq<Option<Node>>
    decreases leaves.len(),
{
    if leaves.len() == 0 {
        Seq::empty()
    } else {
        let rest = imported_nodes(leaves.drop_last());
        if leaves.last().frequency > 0 {
            rest.push(Some(Node::Leaf(leaves.last())))
        } else {
            rest
        }
    }
}

/// What `add_leaf` makes of a slot: one more occurrence of the leaf there,
/// or a new leaf for `value`.
pub open spec fn bumped(slot: Option<Node>, value: u8) -> Option<Node> {
    match slot {
        Some(Node::Leaf(l)) => Some(Node::Leaf(Leaf { frequency: (l.frequency + 1) as u64, data: l.data })),
        _ => Some(Node::Leaf(Leaf { frequency: 1, data: value })),
    }
}

/// The table has a slot for each byte value, and none holds a code word.
pub open spec fn no_codes(cache: Seq<Option<(u32, u8)>>) -> bool {
    forall|i: int| 0 <= i < cache.len() ==> #[trigger] cache[i] is None
}

/// A Huffman tree kept in a vector: `nodes` holds the leaves and, once the
/// tree is built, the branches after them; `root` is the index of the root;
/// `cache` holds the code word found for each byte value.
pub struct Tree {
    pub root: Option<usize>,
    pub nodes: Vec<Option<Node>>,
    pub cache: Box<[Option<(u32, u8)>; 256]>,
}

proof fn lemma_count_bound(s: Seq<u8>, b: u8)
    ensures
        count_of(s, b) <= s.len(),
    decreases s.len(),
{
    if s.len() > 0 {
        lemma_count_bound(s.drop_last(), b);
    }
}

impl Tree {
    /// An empty table of 256 byte slots, no root and no code words.
    pub fn new() -> (t: Self)
        ensures
            t.root is None,
            t.nodes@ == Seq::new(256, |i: int| None::<Node>),
            no_codes(t.cache@),
    {
        let t = Tree { root: None, nodes: vec![None; 256], cache: Box::new([None; 256]) };
        proof {
            assert(t.nodes@ =~= Seq::new(256, |i: int| None::<Node>));
        }
        t
    }

    /// Counts one more occurrence of `value`: the leaf in slot `value` gets
    /// one more, or a new leaf for `value` with frequency 1 takes the slot.
    pub fn add_leaf(&mut self, value: u8)
        requires
            (value as int) < old(self).nodes@.len(),
            old(self).nodes@[value as int] matches Some(Node::Leaf(l)) ==> l.frequency < u64::MAX,
        ensures
            final(self).nodes@ == old(self).nodes@.update(
                value as int,
                bumped(old(self).nodes@[value as int], value),
            ),
            final(self).root == old(self).root,
            final(self).cache@ == old(self).cache@,
    {
        let idx = value as usize;
        match self.nodes[idx] {
            Some(Node::Leaf(leaf)) => {
                self.nodes.set(
                    idx,
                    Some(Node::Leaf(Leaf { frequency: leaf.frequency + 1, data: leaf.data })),
                );
            },
            _ => {
                self.nodes.set(idx, Some(Node::Leaf(Leaf { frequency: 1, data: value })));
            },
        }
    }

    /// The code word found for `leaf`, if any.
    pub fn find_leaf(&self, leaf: u8) -> (res: Option<(u32, u8)>)
        ensures
            res == self.cache@[leaf as int],
    {
        self.cache[leaf as usize]
    }

    /// A table of the leaves of `from` whose frequency is not zero, in order,
    /// with no root and no code words.
    pub fn import(from: &[Leaf]) -> (t: Self)
        ensures
            t.nodes@ == imported_nodes(from@),
            t.root is None,
            no_codes(t.cache@),
    {
        let mut nodes: Vec<Option<Node>> = Vec::new();
        let mut i: usize = 0;
        while i < from.len()
            invariant
                0 <= i <= from@.len(),
                nodes@ == imported_nodes(from@.take(i as int)),
            decreases from.len() - i,
        {
            let leaf = from[i];
            proof {
                assert(from@.take(i + 1).drop_last() =~= from@.take(i as int));
            }
            if leaf.frequency > 0 {
                nodes.push(Some(Node::Leaf(leaf)));
            }
            i = i + 1;
        }
        proof {
            assert(from@.take(i as int) =~= from@);
        }
        Tree { root: None, nodes, cache: Box::new([None; 256]) }
    }

    /// Merges the frequency tables of `trees`: slot `b` of the result holds a
    /// leaf for `b` whose frequency adds up those of every leaf for `b` in
    /// every table.
    pub fn merge(trees: Vec<Tree>) -> (t: Self)
        requires
            forall|b: u8| frequency_for(flat_nodes(trees@), b) <= u64::MAX,
        ensures
            t.nodes@ == merged_nodes(flat_nodes(trees@)),
            t.root is None,
            no_codes(t.cache@),
    {
        let mut merged = Tree::new();
        let mut i: usize = 0;
        proof {
            assert(trees@.take(0) =~= Seq::<Tree>::empty());
            assert(merged.nodes@ =~= merged_nodes(flat_nodes(trees@.take(0))));
        }
        while i < trees.len()
            invariant
                0 <= i <= trees@.len(),
                forall|b: u8| frequency_for(flat_nodes(trees@), b) <= u64::MAX,
                merged.nodes@ == merged_nodes(flat_nodes(trees@.take(i as int))),
                merged.root is None,
                no_codes(merged.cache@),
            decreases trees.len() - i,
        {
            let ghost before = flat_nodes(trees@.take(i as int));
            let nodes = &trees[i].nodes;
            let mut j: usize = 0;
            proof {
                assert(nodes@.take(0) =~= Seq::<Option<Node>>::empty());
                assert(before + nodes@.take(0) =~= before);
                lemma_flat_nodes_take(trees@, i as int);
            }
            while j < nodes.len()
                invariant
                    0 <= i < trees@.len(),
                    0 <= j <= nodes@.len(),
                    nodes@ == trees@[i as int].nodes@,
                    before == flat_nodes(trees@.take(i as int)),
                    flat_nodes(trees@.take(i + 1)) == before + nodes@,
                    forall|b: u8| frequency_for(flat_nodes(trees@), b) <= u64::MAX,
                    merged.nodes@ == merged_nodes(before + nodes@.take(j as int)),
                    merged.root is None,
                    no_codes(merged.cache@),
                decreases nodes.len() - j,
            {
                let ghost prefix = before + nodes@.take(j as int);
                let ghost next = before + nodes@.take(j + 1);
                proof {
                    assert(next.drop_last() =~= prefix);
                    assert(next.last() == nodes@[j as int]);
                }
                if let Some(Node::Leaf(leaf)) = nodes[j] {
                    let idx = leaf.data as usize;
                    proof {
                        lemma_frequency_for_prefix(trees@, i as int, nodes@.take(j + 1), leaf.data);
                    }
                    match merged.nodes[idx] {
                        Some(Node::Leaf(m)) => {
                            merged.nodes.set(
                                idx,
                                Some(
                                    Node::Leaf(
                                        Leaf {
                                            frequency: m.frequency + leaf.frequency,
                                            data: m.data,
                                        },
                                    ),
                                ),
                            );
                        },
                        _ => {
                            merged.nodes.set(idx, Some(Node::Leaf(leaf)));
                        },
                    }
                }
                proof {
                    assert(next =~= prefix.push(nodes@[j as int]));
                    assert forall|k: int| 0 <= k < 256 implies #[trigger] merged.nodes@[k]
                        == merged_nodes(next)[k] by {
                        lemma_push_counts(prefix, nodes@[j as int], k as u8);
                        lemma_no_leaves_no_frequency(prefix, k as u8);
                        if let Some(Node::Leaf(leaf)) = nodes@[j as int] {
                            lemma_frequency_for_prefix(trees@, i as int, nodes@.take(j + 1), leaf.data);
                        }
                    }
                    assert(merged.nodes@ =~= merged_nodes(next));
                }
                j = j + 1;
            }
            proof {
                assert(nodes@.take(j as int) =~= nodes@);
            }
            i = i + 1;
        }
        proof {
            assert(trees@.take(i as int) =~= trees@);
        }
        merged
    }
}

proof fn lemma_push_counts(s: Seq<Option<Node>>, n: Option<Node>, b: u8)
    ensures
        frequency_for(s.push(n), b) == frequency_for(s, b) + match n {
            Some(Node::Leaf(l)) => if l.data == b {
                l.frequency as nat
            } else {
                0nat
            },
            _ => 0nat,
        },
        leaves_for(s.push(n), b) == leaves_for(s, b) + match n {
            Some(Node::Leaf(l)) => if l.data == b {
                1nat
            } else {
                0nat
            },
            _ => 0nat,
        },
{
    assert(s.push(n).drop_last() =~= s);
}

proof fn lemma_no_leaves_no_frequency(s: Seq<Option<Node>>, b: u8)
    ensures
        leaves_for(s, b) == 0 ==> frequency_for(s, b) == 0,
    decreases s.len(),
{
    if s.len() > 0 {
        lemma_no_leaves_no_frequency(s.drop_last(), b);
    }
}

proof fn lemma_flat_nodes_take(trees: Seq<Tree>, i: int)
    requires
        0 <= i < trees.len(),
    ensures
        flat_nodes(trees.take(i + 1)) == flat_nodes(trees.take(i)) + trees[i].nodes@,
{
    assert(trees.take(i + 1).drop_last() =~= trees.take(i));
}

proof fn lemma_frequency_for_add(a: Seq<Option<Node>>, c: Seq<Option<Node>>, b: u8)
    ensures
        frequency_for(a + c, b) == frequency_for(a, b) + frequency_for(c, b),
        leaves_for(a + c, b) == leaves_for(a, b) + leaves_for(c, b),
    decreases c.len(),
{
    if c.len() == 0 {
        assert(a + c =~= a);
    } else {
        lemma_frequency_for_add(a, c.drop_last(), b);
        assert((a + c).drop_last() =~= a + c.drop_last());
    }
}

proof fn lemma_flat_nodes_add(x: Seq<Tree>, y: Seq<Tree>)
    ensures
        flat_nodes(x + y) == flat_nodes(x) + flat_nodes(y),
    decreases y.len(),
{
    if y.len() == 0 {
        assert(x + y =~= x);
        assert(flat_nodes(x) + flat_nodes(y) =~= flat_nodes(x));
    } else {
        lemma_flat_nodes_add(x, y.drop_last());
        assert((x + y).drop_last() =~= x + y.drop_last());
        assert(flat_nodes(x + y) =~= flat_nodes(x) + flat_nodes(y));
    }
}

/// A prefix of the nodes of `trees` (those before tree `i`, then `part`, a
/// prefix of tree `i`'s nodes) adds up to no more than all of them.
proof fn lemma_frequency_for_prefix(trees: Seq<Tree>, i: int, part: Seq<Option<Node>>, b: u8)
    requires
        0 <= i < trees.len(),
        part.len() <= trees[i].nodes@.len(),
        part == trees[i].nodes@.take(part.len() as int),
    ensures
        frequency_for(flat_nodes(trees.take(i)) + part, b) <= frequency_for(flat_nodes(trees), b),
{
    let rest_nodes = trees[i].nodes@.skip(part.len() as int);
    assert(trees[i].nodes@ =~= part + rest_nodes);
    lemma_frequency_for_add(flat_nodes(trees.take(i)), part, b);
    lemma_frequency_for_add(part, rest_nodes, b);
    lemma_frequency_for_add(flat_nodes(trees.take(i)), trees[i].nodes@, b);
    lemma_flat_nodes_take(trees, i);
    assert(trees =~= trees.take(i + 1) + trees.skip(i + 1));
    lemma_flat_nodes_add(trees.take(i + 1), trees.skip(i + 1));
    lemma_frequency_for_add(flat_nodes(trees.take(i + 1)), flat_nodes(trees.skip(i + 1)), b);
}

/// The frequency table of `chunk`: slot `b` holds a leaf for `b` counting
/// its occurrences, and is empty where `b` does not occur.
pub fn get_subtree(chunk: &[u8]) -> (t: Tree)
    ensures
        t.nodes@ == count_nodes(chunk@),
        t.root is None,
        no_codes(t.cache@),
{
    let mut res = Tree::new();
    let mut i: usize = 0;
    proof {
        assert(res.nodes@ =~= count_nodes(chunk@.take(0)));
    }
    while i < chunk.len()
        invariant
            0 <= i <= chunk@.len(),
            res.nodes@ == count_nodes(chunk@.take(i as int)),
            res.root is None,
            no_codes(res.cache@),
        decreases chunk.len() - i,
    {
        let byte = chunk[i];
        let ghost prev = chunk@.take(i as int);
        let ghost next = chunk@.take(i + 1);
        proof {
            assert(next.drop_last() =~= prev);
            lemma_count_bound(prev, byte);
        }
        res.add_leaf(byte);
        proof {
            assert(res.nodes@ =~= count_nodes(next));
        }
        i = i + 1;
    }
    proof {
        assert(chunk@.take(i as int) =~= chunk@);
    }
    res
}

/// The chunks one after another.
pub open spec fn concat_chunks(chunks: Seq<Seq<u8>>) -> Seq<u8>
    decreases chunks.len(),
{
    if chunks.len() == 0 {
        Seq::empty()
    } else {
        concat_chunks(chunks.drop_last()) + chunks.last()
    }
}

proof fn lemma_count_of_add(a: Seq<u8>, c: Seq<u8>, b: u8)
    ensures
        count_of(a + c, b) == count_of(a, b) + count_of(c, b),
    decreases c.len(),
{
    if c.len() == 0 {
        assert(a + c =~= a);
    } else {
        lemma_count_of_add(a, c.drop_last(), b);
        assert((a + c).drop_last() =~= a + c.drop_last());
    }
}

proof fn lemma_count_nodes_totals(s: Seq<u8>, b: u8, k: int)
    requires
        0 <= k <= 256,
        s.len() <= u64::MAX,
    ensures
        frequency_for(count_nodes(s).take(k), b) == if (b as int) < k {
            count_of(s, b)
        } else {
            0
        },
        leaves_for(count_nodes(s).take(k), b) == if (b as int) < k && count_of(s, b) > 0 {
            1nat
        } else {
            0nat
        },
    decreases k,
{
    if k > 0 {
        lemma_count_nodes_totals(s, b, k - 1);
        assert(count_nodes(s).take(k).drop_last() =~= count_nodes(s).take(k - 1));
        lemma_count_bound(s, (k - 1) as u8);
        lemma_count_bound(s, b);
        lemma_no_leaves_no_frequency(count_nodes(s).take(k - 1), b);
    }
}

/// Counting chunk by chunk and merging the tables counts the whole: where
/// table `k` holds the byte frequencies of chunk `k`, the merged table holds
/// those of all the chunks one after another.
pub proof fn lemma_merge_counts(trees: Seq<Tree>, chunks: Seq<Seq<u8>>)
    requires
        trees.len() == chunks.len(),
        forall|k: int| 0 <= k < trees.len() ==> #[trigger] trees[k].nodes@ == count_nodes(chunks[k]),
        forall|k: int| 0 <= k < chunks.len() ==> #[trigger] chunks[k].len() <= u64::MAX,
    ensures
        merged_nodes(flat_nodes(trees)) == count_nodes(concat_chunks(chunks)),
        forall|b: u8| frequency_for(flat_nodes(trees), b) == count_of(concat_chunks(chunks), b),
    decreases trees.len(),
{
    if trees.len() > 0 {
        let tr = trees.drop_last();
        let ch = chunks.drop_last();
        lemma_merge_counts(tr, ch);
        let last = chunks.last();
        assert forall|b: u8|
            frequency_for(flat_nodes(trees), b) == count_of(concat_chunks(chunks), b) && (
            leaves_for(flat_nodes(trees), b) > 0 <==> count_of(concat_chunks(chunks), b) > 0) by {
            lemma_frequency_for_add(flat_nodes(tr), trees.last().nodes@, b);
            lemma_count_nodes_totals(last, b, 256);
            assert(count_nodes(last).take(256) =~= count_nodes(last));
            lemma_count_of_add(concat_chunks(ch), last, b);
            lemma_no_leaves_no_frequency(flat_nodes(tr), b);
            lemma_leaves_of_counts(tr, ch, b);
        }
        assert(merged_nodes(flat_nodes(trees)) =~= count_nodes(concat_chunks(chunks)));
    } else {
        assert(merged_nodes(flat_nodes(trees)) =~= count_nodes(concat_chunks(chunks)));
    }
}

proof fn lemma_leaves_of_counts(trees: Seq<Tree>, chunks: Seq<Seq<u8>>, b: u8)
    requires
        trees.len() == chunks.len(),
        forall|k: int| 0 <= k < trees.len() ==> #[trigger] trees[k].nodes@ == count_nodes(chunks[k]),
        forall|k: int| 0 <= k < chunks.len() ==> #[trigger] chunks[k].len() <= u64::MAX,
    ensures
        leaves_for(flat_nodes(trees), b) > 0 <==> count_of(concat_chunks(chunks), b) > 0,
    decreases trees.len(),
{
    if trees.len() > 0 {
        let tr = trees.drop_last();
        let ch = chunks.drop_last();
        lemma_leaves_of_counts(tr, ch, b);
        lemma_frequency_for_add(flat_nodes(tr), trees.last().nodes@, b);
        lemma_count_nodes_totals(chunks.last(), b, 256);
        assert(count_nodes(chunks.last()).take(256) =~= count_nodes(chunks.last()));
        lemma_count_of_add(concat_chunks(ch), chunks.last(), b);
    }
}

/// The frequency of a slot; an empty slot weighs nothing.
pub open spec fn slot_freq(slot: Option<Node>) -> u64 {
    match slot {
        Some(n) => n.freq(),
        None => 0,
    }
}

/// The occupied slots, in order.
pub open spec fn filter_some(nodes: Seq<Option<Node>>) -> Seq<Option<Node>>
    decreases nodes.len(),
{
    if nodes.len() == 0 {
        Seq::empty()
    } else {
        let rest = filter_some(nodes.drop_last());
        if nodes.last() is Some {
            rest.push(nodes.last())
        } else {
            rest
        }
    }
}

/// Frequencies never decrease along `nodes`.
pub open spec fn sorted_by_freq(nodes: Seq<Option<Node>>) -> bool {
    forall|i: int, j: int|
        0 <= i <= j < nodes.len() ==> slot_freq(#[trigger] nodes[i]) <= slot_freq(#[trigger] nodes[j])
}

/// `sorted` with `n` put after every node that weighs no more than it.
pub open spec fn insert_by_freq(sorted: Seq<Option<Node>>, n: Option<Node>) -> Seq<Option<Node>>
    decreases sorted.len(),
{
    if sorted.len() == 0 {
        seq![n]
    } else if slot_freq(sorted.last()) <= slot_freq(n) {
        sorted.push(n)
    } else {
        insert_by_freq(sorted.drop_last(), n).push(sorted.last())
    }
}

/// `nodes` sorted by frequency, keeping nodes of equal frequency in order.
pub open spec fn sort_by_freq(nodes: Seq<Option<Node>>) -> Seq<Option<Node>>
    decreases nodes.len(),
{
    if nodes.len() == 0 {
        Seq::empty()
    } else {
        insert_by_freq(sort_by_freq(nodes.drop_last()), nodes.last())
    }
}

/// Every slot is occupied.
pub open spec fn all_some(nodes: Seq<Option<Node>>) -> bool {
    forall|i: int| 0 <= i < nodes.len() ==> #[trigger] nodes[i] is Some
}

/// Dropping the empty slots leaves only occupied slots, and no more slots
/// than there were.
pub proof fn lemma_filter_some(nodes: Seq<Option<Node>>)
    ensures
        all_some(filter_some(nodes)),
        filter_some(nodes).len() <= nodes.len(),
    decreases nodes.len(),
{
    broadcast use vstd::seq_lib::group_to_multiset_ensures;

    if nodes.len() > 0 {
        lemma_filter_some(nodes.drop_last());
    }
}

proof fn lemma_insert_at(s: Seq<Option<Node>>, n: Option<Node>, j: int)
    requires
        0 <= j <= s.len(),
        forall|k: int| j <= k < s.len() ==> slot_freq(#[trigger] s[k]) > slot_freq(n),
        j > 0 ==> slot_freq(s[j - 1]) <= slot_freq(n),
    ensures
        insert_by_freq(s, n) == s.insert(j, n),
    decreases s.len(),
{
    if s.len() == 0 {
        assert(s.insert(j, n) =~= seq![n]);
    } else if j == s.len() {
        assert(s.insert(j, n) =~= s.push(n));
    } else {
        lemma_insert_at(s.drop_last(), n, j);
        assert(s.insert(j, n) =~= s.drop_last().insert(j, n).push(s.last()));
    }
}

proof fn lemma_insert_props(s: Seq<Option<Node>>, n: Option<Node>)
    requires
        sorted_by_freq(s),
    ensures
        sorted_by_freq(insert_by_freq(s, n)),
        insert_by_freq(s, n).to_multiset() == s.to_multiset().insert(n),
        insert_by_freq(s, n).len() == s.len() + 1,
        forall|k: int|
            0 <= k < insert_by_freq(s, n).len() ==> #[trigger] insert_by_freq(s, n)[k] == n
                || s.contains(insert_by_freq(s, n)[k]),
    decreases s.len(),
{
    broadcast use vstd::seq_lib::group_to_multiset_ensures;

    if s.len() == 0 {
        assert(seq![n] =~= Seq::<Option<Node>>::empty().push(n));
    } else if slot_freq(s.last()) <= slot_freq(n) {
    } else {
        let r = s.drop_last();
        assert(sorted_by_freq(r));
        lemma_insert_props(r, n);
        let ir = insert_by_freq(r, n);
        assert forall|i: int, j: int|
            0 <= i <= j < ir.len() + 1 implies slot_freq(#[trigger] ir.push(s.last())[i])
            <= slot_freq(#[trigger] ir.push(s.last())[j]) by {
            if j == ir.len() && i < j {
                if ir[i] != n {
                    let k = choose|k: int| 0 <= k < r.len() && r[k] == ir[i];
                    assert(s[k] == r[k]);
                }
            }
        }
        assert(s =~= r.push(s.last()));
        assert forall|k: int| 0 <= k < ir.len() + 1 implies #[trigger] ir.push(s.last())[k] == n
            || s.contains(ir.push(s.last())[k]) by {
            if k < ir.len() && ir[k] != n {
                let m = choose|m: int| 0 <= m < r.len() && r[m] == ir[k];
                assert(s[m] == r[m]);
            } else if k == ir.len() {
                assert(s[s.len() - 1] == s.last());
            }
        }
    }
}

proof fn lemma_sort_props(s: Seq<Option<Node>>)
    ensures
        sorted_by_freq(sort_by_freq(s)),
        sort_by_freq(s).to_multiset() == s.to_multiset(),
        sort_by_freq(s).len() == s.len(),
        all_some(s) ==> all_some(sort_by_freq(s)),
    decreases s.len(),
{
    broadcast use vstd::seq_lib::group_to_multiset_ensures;

    if s.len() > 0 {
        let r = s.drop_last();
        lemma_sort_props(r);
        lemma_insert_props(sort_by_freq(r), s.last());
        assert(s =~= r.push(s.last()));
        if all_some(s) {
            assert(all_some(r));
            let out = sort_by_freq(s);
            assert forall|k: int| 0 <= k < out.len() implies #[trigger] out[k] is Some by {
                if out[k] != s.last() {
                    let m = choose|m: int| 0 <= m < sort_by_freq(r).len() && sort_by_freq(r)[m] == out[k];
                }
            }
        }
    }
}

impl Tree {
    /// Drops the empty slots and sorts the nodes by frequency, keeping nodes
    /// of equal frequency in their order.
    pub fn sort_nodes(&mut self)
        ensures
            final(self).nodes@ == sort_by_freq(filter_some(old(self).nodes@)),
            sorted_by_freq(final(self).nodes@),
            final(self).nodes@.to_multiset() == filter_some(old(self).nodes@).to_multiset(),
            all_some(final(self).nodes@),
            final(self).root == old(self).root,
            final(self).cache@ == old(self).cache@,
    {
        let mut kept: Vec<Option<Node>> = Vec::new();
        let mut i: usize = 0;
        while i < self.nodes.len()
            invariant
                0 <= i <= self.nodes@.len(),
                self.nodes@ == old(self).nodes@,
                kept@ == sort_by_freq(filter_some(self.nodes@.take(i as int))),
                sorted_by_freq(kept@),
            decreases self.nodes.len() - i,
        {
            let ghost prev = self.nodes@.take(i as int);
            proof {
                assert(self.nodes@.take(i + 1).drop_last() =~= prev);
            }
            let slot = self.nodes[i];
            if slot.is_some() {
                let f = slot_frequency(&slot);
                let mut j: usize = kept.len();
                while j > 0 && slot_frequency(&kept[j - 1]) > f
                    invariant
                        0 <= j <= kept@.len(),
                        f == slot_freq(slot),
                        forall|k: int| j <= k < kept@.len() ==> slot_freq(#[trigger] kept@[k]) > f,
                    decreases j,
                {
                    j = j - 1;
                }
                proof {
                    lemma_insert_at(kept@, slot, j as int);
                    lemma_insert_props(kept@, slot);
                }
                kept.insert(j, slot);
                proof {
                    let f = filter_some(prev);
                    assert(filter_some(self.nodes@.take(i + 1)) == f.push(slot));
                    assert(f.push(slot).drop_last() =~= f);
                }
            } else {
                proof {
                    assert(filter_some(self.nodes@.take(i + 1)) == filter_some(prev));
                }
            }
            i = i + 1;
        }
        proof {
            assert(self.nodes@.take(i as int) =~= self.nodes@);
            lemma_sort_props(filter_some(self.nodes@));
            lemma_filter_some(self.nodes@);
        }
        self.nodes = kept;
    }
}

fn slot_frequency(slot: &Option<Node>) -> (f: u64)
    ensures
        f == slot_freq(*slot),
{
    match slot {
        Some(n) => n.frequency(),
        None => 0,
    }
}

/// Every branch points at slots of `nodes`.
pub open spec fn links_inside(nodes: Seq<Option<Node>>) -> bool {
    forall|i: int|
        0 <= i < nodes.len() ==> match #[trigger] nodes[i] {
            Some(Node::Branch(b)) => b.left_child() < nodes.len() && b.right_child() < nodes.len(),
            _ => true,
        }
}

/// Every branch points at children stored before it.
pub open spec fn children_before(nodes: Seq<Option<Node>>) -> bool {
    forall|i: int|
        0 <= i < nodes.len() ==> match #[trigger] nodes[i] {
            Some(Node::Branch(b)) => b.left_child() < i && b.right_child() < i,
            _ => true,
        }
}

/// The frequencies of the slots `lo..hi` of `s`, added up.
pub open spec fn freq_sum(s: Seq<Option<Node>>, lo: int, hi: int) -> nat
    decreases hi - lo,
{
    if hi <= lo {
        0
    } else {
        freq_sum(s, lo, hi - 1) + slot_freq(s[hi - 1]) as nat
    }
}

/// Whether the next merge takes the next leaf (below `leaf_count`) rather
/// than the next branch: it does unless no leaf is left, or a branch is left
/// that is lighter.
pub open spec fn takes_leaf(nodes: Seq<Option<Node>>, leaf_count: int, leaf: int, branch: int) -> bool {
    leaf < leaf_count && (branch == nodes.len() || slot_freq(nodes[leaf]) <= slot_freq(
        nodes[branch],
    ))
}

/// The nodes, the next leaf and the next branch after `k` merges of the
/// `n` leaves at the start of `nodes`: each merge takes two nodes as above
/// and appends a branch over them that weighs what they weigh together.
pub open spec fn merge_steps(nodes: Seq<Option<Node>>, n: int, k: nat) -> (Seq<Option<Node>>, int, int)
    decreases k,
{
    if k == 0 {
        (nodes, 0, n)
    } else {
        let (s, l, b) = merge_steps(nodes, n, (k - 1) as nat);
        let left = if takes_leaf(s, n, l, b) {
            l
        } else {
            b
        };
        let (l1, b1) = if takes_leaf(s, n, l, b) {
            (l + 1, b)
        } else {
            (l, b + 1)
        };
        let right = if takes_leaf(s, n, l1, b1) {
            l1
        } else {
            b1
        };
        let (l2, b2) = if takes_leaf(s, n, l1, b1) {
            (l1 + 1, b1)
        } else {
            (l1, b1 + 1)
        };
        (
            s.push(
                Some(
                    Node::Branch(
                        Branch::of(
                            (slot_freq(s[left]) + slot_freq(s[right])) as u64,
                            left as u64,
                            right as u64,
                        ),
                    ),
                ),
            ),
            l2,
            b2,
        )
    }
}

/// The nodes of the tree built over `leaves` (at least one): the leaves,
/// then one branch for each of the `leaves.len() - 1` merges.
pub open spec fn built_nodes(leaves: Seq<Option<Node>>) -> Seq<Option<Node>> {
    merge_steps(leaves, leaves.len() as int, (leaves.len() - 1) as nat).0
}

impl Tree {
    /// The tree can be walked from its root: the root is a slot of it,
    /// every slot is occupied and every branch points at slots of it.
    pub open spec fn built(self) -> bool {
        &&& self.root matches Some(r) && r < self.nodes@.len()
        &&& all_some(self.nodes@)
        &&& links_inside(self.nodes@)
    }
}

/// Every path of at most `depth` branches down from node `idx` meets only
/// occupied slots of `nodes`: the slots a walk from `idx` that reads at
/// most `depth` bits can reach.
pub open spec fn paths_inside(nodes: Seq<Option<Node>>, idx: int, depth: nat) -> bool
    decreases depth,
{
    0 <= idx < nodes.len() && match nodes[idx] {
        Some(Node::Leaf(_)) => true,
        Some(Node::Branch(b)) => depth == 0 || (paths_inside(
            nodes,
            b.left_child() as int,
            (depth - 1) as nat,
        ) && paths_inside(nodes, b.right_child() as int, (depth - 1) as nat)),
        None => false,
    }
}

impl Tree {
    /// The tree has a root, and a walk from it that reads at most `depth`
    /// bits meets only occupied slots.
    pub open spec fn walkable(self, depth: nat) -> bool {
        self.root matches Some(r) && paths_inside(self.nodes@, r as int, depth)
    }
}

/// Paths that stay inside for some depth stay inside for any smaller one.
pub proof fn lemma_paths_inside_shorter(nodes: Seq<Option<Node>>, idx: int, depth: nat, d: nat)
    requires
        paths_inside(nodes, idx, depth),
        d <= depth,
    ensures
        paths_inside(nodes, idx, d),
    decreases d,
{
    if d > 0 {
        if let Some(Node::Branch(b)) = nodes[idx] {
            lemma_paths_inside_shorter(nodes, b.left_child() as int, (depth - 1) as nat, (d - 1) as nat);
            lemma_paths_inside_shorter(nodes, b.right_child() as int, (depth - 1) as nat, (d - 1) as nat);
        }
    }
}

/// In a table whose slots are all occupied and whose branches all point
/// inside it, every path from any slot stays inside.
pub proof fn lemma_linked_paths_inside(nodes: Seq<Option<Node>>, idx: int, depth: nat)
    requires
        all_some(nodes),
        links_inside(nodes),
        0 <= idx < nodes.len(),
    ensures
        paths_inside(nodes, idx, depth),
    decreases depth,
{
    assert(nodes[idx] is Some);
    if depth > 0 {
        if let Some(Node::Branch(b)) = nodes[idx] {
            lemma_linked_paths_inside(nodes, b.left_child() as int, (depth - 1) as nat);
            lemma_linked_paths_inside(nodes, b.right_child() as int, (depth - 1) as nat);
        }
    }
}

proof fn lemma_freq_sum_front(s: Seq<Option<Node>>, lo: int, hi: int)
    requires
        0 <= lo < hi,
    ensures
        freq_sum(s, lo, hi) == slot_freq(s[lo]) + freq_sum(s, lo + 1, hi),
    decreases hi - lo,
{
    if hi > lo + 1 {
        lemma_freq_sum_front(s, lo, hi - 1);
        assert(freq_sum(s, lo + 1, hi) == freq_sum(s, lo + 1, hi - 1) + slot_freq(s[hi - 1]) as nat);
    } else {
        assert(freq_sum(s, lo, hi) == freq_sum(s, lo, lo) + slot_freq(s[lo]) as nat);
        assert(freq_sum(s, lo + 1, hi) == 0);
    }
}

proof fn lemma_freq_sum_push(s: Seq<Option<Node>>, x: Option<Node>, lo: int, hi: int)
    requires
        0 <= lo,
        hi <= s.len(),
    ensures
        freq_sum(s.push(x), lo, hi) == freq_sum(s, lo, hi),
    decreases hi - lo,
{
    if hi > lo {
        lemma_freq_sum_push(s, x, lo, hi - 1);
    }
}

/// Node `i` has not been merged yet after `k` merges of `n` leaves that
/// have taken the leaves before `l` and the branches before `b`.
pub open spec fn unmerged(n: int, k: int, l: int, b: int, i: int) -> bool {
    (l <= i < n) || (b <= i < n + k)
}

proof fn lemma_pick_lightest(s: Seq<Option<Node>>, n: int, k: int, l: int, b: int)
    requires
        s.len() == n + k,
        0 <= l <= n <= b <= n + k,
        (n - l) + (n + k - b) >= 2,
        forall|i: int, j: int| l <= i <= j < n ==> slot_freq(#[trigger] s[i]) <= slot_freq(#[trigger] s[j]),
        forall|i: int, j: int| b <= i <= j < n + k ==> slot_freq(#[trigger] s[i]) <= slot_freq(#[trigger] s[j]),
    ensures
        ({
            let left = if takes_leaf(s, n, l, b) { l } else { b };
            let (l1, b1) = if takes_leaf(s, n, l, b) { (l + 1, b) } else { (l, b + 1) };
            let right = if takes_leaf(s, n, l1, b1) { l1 } else { b1 };
            &&& unmerged(n, k, l, b, left)
            &&& unmerged(n, k, l, b, right)
            &&& left != right
            &&& forall|x: int|
                unmerged(n, k, l, b, x) && x != left ==> slot_freq(s[left]) <= slot_freq(#[trigger] s[x])
            &&& forall|x: int|
                unmerged(n, k, l, b, x) && x != left && x != right ==> slot_freq(s[right])
                    <= slot_freq(#[trigger] s[x])
        }),
{
    let left = if takes_leaf(s, n, l, b) { l } else { b };
    let (l1, b1) = if takes_leaf(s, n, l, b) { (l + 1, b) } else { (l, b + 1) };
    let right = if takes_leaf(s, n, l1, b1) { l1 } else { b1 };
    assert forall|x: int| unmerged(n, k, l, b, x) && x != left implies slot_freq(s[left])
        <= slot_freq(#[trigger] s[x]) by {
        if takes_leaf(s, n, l, b) {
            if b < n + k && b <= x {
                assert(slot_freq(s[b]) <= slot_freq(s[x]));
            }
        } else {
            if l < n && x < n {
                assert(slot_freq(s[l]) <= slot_freq(s[x]));
            }
        }
    }
    assert forall|x: int| unmerged(n, k, l, b, x) && x != left && x != right implies slot_freq(
        s[right],
    ) <= slot_freq(#[trigger] s[x]) by {
        if takes_leaf(s, n, l1, b1) {
            if b1 < n + k && b1 <= x {
                assert(slot_freq(s[b1]) <= slot_freq(s[x]));
            }
        } else {
            if l1 < n && x < n {
                assert(slot_freq(s[l1]) <= slot_freq(s[x]));
            }
        }
    }
}

/// What holds of the nodes and the two fronts after `k` merges.
spec fn merge_state_ok(leaves: Seq<Option<Node>>, s: Seq<Option<Node>>, l: int, b: int, k: int) -> bool {
    let n = leaves.len() as int;
    &&& s.len() == n + k
    &&& s.take(n) == leaves
    &&& 0 <= l <= n <= b <= n + k
    &&& (n - l) + (n + k - b) == n - k
    &&& freq_sum(s, l, n) + freq_sum(s, b, n + k) == freq_sum(leaves, 0, n)
    &&& forall|i: int, j: int|
        n <= i <= j < n + k ==> slot_freq(#[trigger] s[i]) <= slot_freq(#[trigger] s[j])
    &&& k > 0 ==> forall|x: int|
        unmerged(n, k, l, b, x) ==> slot_freq(s[n + k - 1]) <= 2 * slot_freq(#[trigger] s[x])
}

proof fn lemma_merge_step(leaves: Seq<Option<Node>>, s: Seq<Option<Node>>, l: int, b: int, km: int)
    requires
        leaves.len() >= 2,
        sorted_by_freq(leaves),
        freq_sum(leaves, 0, leaves.len() as int) <= u64::MAX,
        0 <= km < leaves.len() - 1,
        merge_state_ok(leaves, s, l, b, km),
    ensures
        ({
            let n = leaves.len() as int;
            let left = if takes_leaf(s, n, l, b) { l } else { b };
            let (l1, b1) = if takes_leaf(s, n, l, b) { (l + 1, b) } else { (l, b + 1) };
            let right = if takes_leaf(s, n, l1, b1) { l1 } else { b1 };
            let (l2, b2) = if takes_leaf(s, n, l1, b1) { (l1 + 1, b1) } else { (l1, b1 + 1) };
            let x = Some(
                Node::Branch(
                    Branch::of(
                        (slot_freq(s[left]) + slot_freq(s[right])) as u64,
                        left as u64,
                        right as u64,
                    ),
                ),
            );
            merge_state_ok(leaves, s.push(x), l2, b2, km + 1)
        }),
{
    let n = leaves.len() as int;
    assert forall|i: int, j: int| l <= i <= j < n implies slot_freq(#[trigger] s[i]) <= slot_freq(
        #[trigger] s[j],
    ) by {
        assert(s[i] == s.take(n)[i] && s[j] == s.take(n)[j]);
    }
    lemma_pick_lightest(s, n, km, l, b);
    let left = if takes_leaf(s, n, l, b) { l } else { b };
    let (l1, b1) = if takes_leaf(s, n, l, b) { (l + 1, b) } else { (l, b + 1) };
    let right = if takes_leaf(s, n, l1, b1) { l1 } else { b1 };
    let (l2, b2) = if takes_leaf(s, n, l1, b1) { (l1 + 1, b1) } else { (l1, b1 + 1) };
    if takes_leaf(s, n, l, b) {
        lemma_freq_sum_front(s, l, n);
    } else {
        lemma_freq_sum_front(s, b, n + km);
    }
    if takes_leaf(s, n, l1, b1) {
        lemma_freq_sum_front(s, l1, n);
    } else {
        lemma_freq_sum_front(s, b1, n + km);
    }
    let wa = slot_freq(s[left]);
    let wc = slot_freq(s[right]);
    let x = Some(Node::Branch(Branch::of((wa + wc) as u64, left as u64, right as u64)));
    let s2 = s.push(x);
    lemma_branch_of((wa + wc) as u64, left as u64, right as u64);
    assert(slot_freq(s2[n + km]) == wa + wc);
    lemma_freq_sum_push(s, x, l2, n);
    lemma_freq_sum_push(s, x, b2, n + km);
    assert(freq_sum(s2, b2, n + km + 1) == freq_sum(s2, b2, n + km) + slot_freq(s2[n + km]));
    assert(s2.take(n) =~= s.take(n));
    assert(wa <= wc);
    if km > 0 {
        assert(slot_freq(s[n + km - 1]) <= 2 * slot_freq(s[left]));
    }
    assert forall|i: int, j: int| n <= i <= j < n + km + 1 implies slot_freq(#[trigger] s2[i])
        <= slot_freq(#[trigger] s2[j]) by {
        if j == n + km {
            if i < n + km {
                assert(slot_freq(s[i]) <= slot_freq(s[n + km - 1]));
            }
        }
    }
    assert forall|y: int| unmerged(n, km + 1, l2, b2, y) implies slot_freq(s2[n + km])
        <= 2 * slot_freq(#[trigger] s2[y]) by {
        if y < n + km {
            assert(unmerged(n, km, l, b, y) && y != left && y != right);
            assert(slot_freq(s[right]) <= slot_freq(s[y]));
        }
    }
}

proof fn lemma_merge_state(leaves: Seq<Option<Node>>, k: nat)
    requires
        leaves.len() >= 2,
        sorted_by_freq(leaves),
        freq_sum(leaves, 0, leaves.len() as int) <= u64::MAX,
        k <= leaves.len() - 1,
    ensures
        merge_state_ok(
            leaves,
            merge_steps(leaves, leaves.len() as int, k).0,
            merge_steps(leaves, leaves.len() as int, k).1,
            merge_steps(leaves, leaves.len() as int, k).2,
            k as int,
        ),
    decreases k,
{
    let n = leaves.len() as int;
    if k == 0 {
        assert(leaves.take(n) =~= leaves);
    } else {
        lemma_merge_state(leaves, (k - 1) as nat);
        let (s, l, b) = merge_steps(leaves, n, (k - 1) as nat);
        lemma_merge_step(leaves, s, l, b, k - 1);
    }
}

/// Each merge joins two of the lightest nodes not yet merged: with the
/// leaves sorted by frequency and their frequencies adding up to a 64-bit
/// number, after `k` merges (with at least two nodes left) the next one
/// takes first a node that weighs no more than any other node not yet
/// merged, then one that weighs no more than any of the others left, and
/// the branch it makes weighs what the two weigh together.
pub proof fn lemma_merge_takes_lightest(leaves: Seq<Option<Node>>, k: nat)
    requires
        leaves.len() >= 2,
        sorted_by_freq(leaves),
        freq_sum(leaves, 0, leaves.len() as int) <= u64::MAX,
        k < leaves.len() - 1,
    ensures
        ({
            let n = leaves.len() as int;
            let (s, l, b) = merge_steps(leaves, n, k);
            let t = merge_steps(leaves, n, k + 1).0;
            exists|c1: int, c2: int|
                {
                    &&& t[n + k] == Some(Node::Branch(Branch::of(
                        (slot_freq(s[c1]) + slot_freq(s[c2])) as u64,
                        c1 as u64,
                        c2 as u64,
                    )))
                    &&& slot_freq(s[c1]) + slot_freq(s[c2]) <= u64::MAX
                    &&& #[trigger] unmerged(n, k as int, l, b, c1)
                    &&& #[trigger] unmerged(n, k as int, l, b, c2)
                    &&& c1 != c2
                    &&& forall|x: int|
                        unmerged(n, k as int, l, b, x) && x != c1 ==> slot_freq(s[c1]) <= slot_freq(
                            #[trigger] s[x],
                        )
                    &&& forall|x: int|
                        unmerged(n, k as int, l, b, x) && x != c1 && x != c2 ==> slot_freq(s[c2])
                            <= slot_freq(#[trigger] s[x])
                }
        }),
{
    let n = leaves.len() as int;
    lemma_merge_state(leaves, k);
    let (s, l, b) = merge_steps(leaves, n, k);
    assert forall|i: int, j: int| l <= i <= j < n implies slot_freq(#[trigger] s[i]) <= slot_freq(
        #[trigger] s[j],
    ) by {
        assert(s[i] == s.take(n)[i] && s[j] == s.take(n)[j]);
    }
    lemma_pick_lightest(s, n, k as int, l, b);
    let left = if takes_leaf(s, n, l, b) { l } else { b };
    let (l1, b1) = if takes_leaf(s, n, l, b) { (l + 1, b) } else { (l, b + 1) };
    let right = if takes_leaf(s, n, l1, b1) { l1 } else { b1 };
    if takes_leaf(s, n, l, b) {
        lemma_freq_sum_front(s, l, n);
    } else {
        lemma_freq_sum_front(s, b, n + k);
    }
    if takes_leaf(s, n, l1, b1) {
        lemma_freq_sum_front(s, l1, n);
    } else {
        lemma_freq_sum_front(s, b1, n + k);
    }
    assert(unmerged(n, k as int, l, b, left) && unmerged(n, k as int, l, b, right));
}

/// The index of the node the next merge takes, moving past it.
fn next_node(nodes: &Vec<Option<Node>>, leaf_count: usize, leaf: &mut usize, branch: &mut usize) -> (idx: usize)
    requires
        *old(leaf) <= leaf_count <= *old(branch) <= nodes@.len(),
        *old(leaf) < leaf_count || *old(branch) < nodes@.len(),
        all_some(nodes@),
    ensures
        takes_leaf(nodes@, leaf_count as int, *old(leaf) as int, *old(branch) as int) ==> idx
            == *old(leaf) && *final(leaf) == *old(leaf) + 1 && *final(branch) == *old(branch),
        !takes_leaf(nodes@, leaf_count as int, *old(leaf) as int, *old(branch) as int) ==> idx
            == *old(branch) && *final(leaf) == *old(leaf) && *final(branch) == *old(branch) + 1,
{
    let len = nodes.len();
    let take_leaf: bool = if *leaf < leaf_count {
        if *branch == len {
            true
        } else {
            slot_frequency(&nodes[*leaf]) <= slot_frequency(&nodes[*branch])
        }
    } else {
        false
    };
    if take_leaf {
        let idx = *leaf;
        *leaf = *leaf + 1;
        idx
    } else {
        assert(*branch < len);
        let idx = *branch;
        *branch = *branch + 1;
        idx
    }
}

impl Tree {
    fn retain_some(&mut self)
        ensures
            final(self).nodes@ == filter_some(old(self).nodes@),
            final(self).root == old(self).root,
            final(self).cache@ == old(self).cache@,
    {
        let mut kept: Vec<Option<Node>> = Vec::new();
        let mut i: usize = 0;
        while i < self.nodes.len()
            invariant
                0 <= i <= self.nodes@.len(),
                self.nodes@ == old(self).nodes@,
                kept@ == filter_some(self.nodes@.take(i as int)),
            decreases self.nodes.len() - i,
        {
            proof {
                assert(self.nodes@.take(i + 1).drop_last() =~= self.nodes@.take(i as int));
            }
            let slot = self.nodes[i];
            if slot.is_some() {
                kept.push(slot);
            }
            i = i + 1;
        }
        proof {
            assert(self.nodes@.take(i as int) =~= self.nodes@);
        }
        self.nodes = kept;
    }

    /// Builds the Huffman tree over the occupied slots, after dropping the
    /// empty ones: the leaves stay first, and each of the `n - 1` merges
    /// appends a branch over the two lightest nodes not yet merged, taken
    /// from the front of the leaves (in their order) and the front of the
    /// branches (in the order they were made), a leaf first where both weigh
    /// the same. The last branch is the root; a single node is its own root.
    /// Fails with nothing to build from.
    #[verifier::spinoff_prover]
    #[verifier::rlimit(30)]
    pub fn construct_tree(&mut self) -> (res: Result<(), ZipError>)
        requires
            freq_sum(filter_some(old(self).nodes@), 0, filter_some(old(self).nodes@).len() as int)
                <= u64::MAX,
            2 * old(self).nodes@.len() <= usize::MAX,
        ensures
            filter_some(old(self).nodes@).len() == 0 ==> res == Err::<(), ZipError>(
                ZipError::EmptyInput,
            ) && final(self).nodes@ == filter_some(old(self).nodes@) && final(self).root == old(
                self,
            ).root,
            filter_some(old(self).nodes@).len() > 0 ==> res == Ok::<(), ZipError>(())
                && final(self).nodes@ == built_nodes(filter_some(old(self).nodes@))
                && final(self).root == Some((2 * filter_some(old(self).nodes@).len() - 2) as usize)
                && all_some(final(self).nodes@)
                && final(self).nodes@.len() == 2 * filter_some(old(self).nodes@).len() - 1
                && final(self).nodes@.take(filter_some(old(self).nodes@).len() as int) == filter_some(
                old(self).nodes@,
            ) && (filter_some(old(self).nodes@).len() >= 2 ==> final(self).nodes@[2
                * filter_some(old(self).nodes@).len() - 2] matches Some(Node::Branch(_))),
            filter_some(old(self).nodes@).len() > 0 && links_inside(filter_some(old(self).nodes@))
                ==> final(self).built(),
            filter_some(old(self).nodes@).len() > 0 && children_before(
                filter_some(old(self).nodes@),
            ) ==> children_before(final(self).nodes@),
            final(self).cache@ == old(self).cache@,
    {
        proof {
            lemma_filter_some(old(self).nodes@);
        }
        self.retain_some();
        let ghost leaves = self.nodes@;
        if self.nodes.len() == 0 {
            return Err(ZipError::EmptyInput);
        }
        if self.nodes.len() == 1 {
            self.root = Some(0);
            proof {
                assert(self.nodes@.take(1) =~= self.nodes@);
            }
            return Ok(());
        }
        let leaf_count: usize = self.nodes.len();
        self.nodes.reserve(self.nodes.len() - 1);
        let mut current_leaf: usize = 0;
        let mut current_branch: usize = leaf_count;
        let mut k: usize = 0;
        let ghost n = leaf_count as int;
        let ghost total = freq_sum(leaves, 0, n);
        while k < leaf_count - 1
            invariant
                n == leaf_count,
                leaves.len() == n,
                2 <= n,
                2 * n <= usize::MAX,
                all_some(leaves),
                total == freq_sum(leaves, 0, n),
                total <= u64::MAX,
                0 <= k <= n - 1,
                merge_steps(leaves, n, k as nat) == (
                    self.nodes@,
                    current_leaf as int,
                    current_branch as int,
                ),
                self.nodes@.len() == n + k,
                self.nodes@.take(n) == leaves,
                0 <= current_leaf <= n <= current_branch <= n + k,
                (n - current_leaf) + (n + k - current_branch) == n - k,
                all_some(self.nodes@),
                links_inside(leaves) ==> links_inside(self.nodes@),
                children_before(leaves) ==> children_before(self.nodes@),
                freq_sum(self.nodes@, current_leaf as int, n) + freq_sum(
                    self.nodes@,
                    current_branch as int,
                    n + k,
                ) == total,
                k > 0 ==> self.root == Some((n + k - 1) as usize),
                k > 0 ==> self.nodes@[n + k - 1] matches Some(Node::Branch(_)),
                self.cache@ == old(self).cache@,
            decreases n - 1 - k,
        {
            let ghost s = self.nodes@;
            let ghost cl = current_leaf as int;
            let ghost cb = current_branch as int;
            let left = next_node(&self.nodes, leaf_count, &mut current_leaf, &mut current_branch);
            let right = next_node(&self.nodes, leaf_count, &mut current_leaf, &mut current_branch);
            proof {
                if takes_leaf(s, n, cl, cb) {
                    lemma_freq_sum_front(s, cl, n);
                } else {
                    lemma_freq_sum_front(s, cb, n + k);
                }
                let cl1 = if takes_leaf(s, n, cl, cb) { cl + 1 } else { cl };
                let cb1 = if takes_leaf(s, n, cl, cb) { cb } else { cb + 1 };
                if takes_leaf(s, n, cl1, cb1) {
                    lemma_freq_sum_front(s, cl1, n);
                } else {
                    lemma_freq_sum_front(s, cb1, n + k);
                }
            }
            let freq: u64 = slot_frequency(&self.nodes[left]) + slot_frequency(&self.nodes[right]);
            let ghost x = Some(Node::Branch(Branch::of(freq, left as u64, right as u64)));
            self.nodes.push(Some(Node::Branch(Branch::new(freq, left as u64, right as u64))));
            self.root = Some(self.nodes.len() - 1);
            proof {
                let s2 = self.nodes@;
                assert(s2 == s.push(x));
                lemma_freq_sum_push(s, x, current_leaf as int, n);
                lemma_freq_sum_push(s, x, current_branch as int, n + k);
                assert(s2.take(n) =~= s.take(n));
                assert forall|i: int| 0 <= i < s2.len() implies #[trigger] s2[i] is Some by {
                    if i < s.len() {
                        assert(s[i] is Some);
                    }
                }
                if children_before(leaves) {
                    assert forall|i: int| 0 <= i < s2.len() implies match #[trigger] s2[i] {
                        Some(Node::Branch(b)) => b.left_child() < i && b.right_child() < i,
                        _ => true,
                    } by {
                        if i < s.len() {
                            assert(s2[i] == s[i]);
                        }
                    }
                }
                if links_inside(leaves) {
                    assert forall|i: int| 0 <= i < s2.len() implies match #[trigger] s2[i] {
                        Some(Node::Branch(b)) => b.left_child() < s2.len() && b.right_child() < s2.len(),
                        _ => true,
                    } by {
                        if i < s.len() {
                            assert(s2[i] == s[i]);
                        }
                    }
                }
            }
            k = k + 1;
        }
        Ok(())
    }
}

/// Decoding one symbol: from node `idx`, follow the bits of `bits` from
/// position `pos` on, a `1` to the right child and a `0` to the left, until
/// a leaf. Gives the leaf's byte (or nothing, if the bits run out first) and
/// the position after the bits followed.
pub open spec fn walk(nodes: Seq<Option<Node>>, idx: int, bits: Seq<bool>, pos: int) -> (Option<u8>, int)
    decreases bits.len() - pos,
{
    if 0 <= idx < nodes.len() {
        match nodes[idx] {
            Some(Node::Leaf(l)) => (Some(l.data), pos),
            Some(Node::Branch(b)) => if pos >= bits.len() {
                (None, pos)
            } else {
                let child: int = if bits[pos] {
                    b.right_child() as int
                } else {
                    b.left_child() as int
                };
                walk(nodes, child, bits, pos + 1)
            },
            None => (None, pos),
        }
    } else {
        (None, pos)
    }
}

/// Every path down from node `idx`, whose own code word has `len` bits,
/// stays among the occupied slots of `nodes` and ends at a leaf before its
/// code word would need more than 255 bits.
pub open spec fn paths_fit(nodes: Seq<Option<Node>>, idx: int, len: u8) -> bool
    decreases 255 - len,
{
    if 0 <= idx < nodes.len() {
        match nodes[idx] {
            Some(Node::Leaf(_)) => true,
            Some(Node::Branch(b)) => len < 255 && paths_fit(
                nodes,
                b.left_child() as int,
                (len + 1) as u8,
            ) && paths_fit(nodes, b.right_child() as int, (len + 1) as u8),
            None => false,
        }
    } else {
        false
    }
}

/// The code table after recording the code words below node `idx`, whose
/// own code word is the low `len` bits of `code`: a leaf records its code
/// word for its byte (replacing what was there); a branch records its left
/// subtree (code word extended by `0`), then its right one (by `1`).
pub open spec fn fill(
    nodes: Seq<Option<Node>>,
    idx: int,
    code: u32,
    len: u8,
    cache: Seq<Option<(u32, u8)>>,
) -> Seq<Option<(u32, u8)>>
    decreases 255 - len,
{
    if 0 <= idx < nodes.len() {
        match nodes[idx] {
            Some(Node::Leaf(l)) => cache.update(l.data as int, Some((code, len))),
            Some(Node::Branch(b)) => if len < 255 {
                let next = (len + 1) as u8;
                fill(
                    nodes,
                    b.right_child() as int,
                    (code << 1u32) | 1u32,
                    next,
                    fill(nodes, b.left_child() as int, code << 1u32, next, cache),
                )
            } else {
                cache
            },
            None => cache,
        }
    } else {
        cache
    }
}

/// The table entry for the byte `b` read as eight bits: the byte decoded
/// from them and how many of them it took, or zeros where they do not
/// reach a leaf.
pub open spec fn lut_entry(nodes: Seq<Option<Node>>, root: int, b: u8) -> LUTEntry {
    match walk(nodes, root, bits_of_bytes(seq![b]), 0) {
        (Some(d), p) => LUTEntry { length: p as u8, byte: d },
        (None, _) => LUTEntry { length: 0, byte: 0 },
    }
}

/// A walk moves forward and stops within the bits.
pub proof fn lemma_walk_bounds(nodes: Seq<Option<Node>>, idx: int, bits: Seq<bool>, pos: int)
    requires
        0 <= pos <= bits.len(),
    ensures
        pos <= walk(nodes, idx, bits, pos).1 <= bits.len(),
    decreases bits.len() - pos,
{
    if 0 <= idx < nodes.len() {
        if let Some(Node::Branch(b)) = nodes[idx] {
            if pos < bits.len() {
                let child: int = if bits[pos] {
                    b.right_child() as int
                } else {
                    b.left_child() as int
                };
                lemma_walk_bounds(nodes, child, bits, pos + 1);
            }
        }
    }
}

impl Tree {
    /// Decodes one symbol: walks down from the root, reading a bit at each
    /// branch (`1` to the right child, `0` to the left), and gives the byte
    /// of the leaf reached, or nothing if the reader runs out of bits first.
    pub fn get_next_leaf(&self, reader: &mut BitReader) -> (res: Option<u8>)
        requires
            self.walkable((old(reader).limit() - old(reader).position()) as nat),
            old(reader).wf(),
        ensures
            final(reader).wf(),
            final(reader).data() == old(reader).data(),
            final(reader).total() == old(reader).total(),
            (res, final(reader).position() as int) == walk(
                self.nodes@,
                self.root.unwrap() as int,
                old(reader).stream(),
                old(reader).position() as int,
            ),
    {
        let mut idx: usize = self.root.unwrap();
        loop
            invariant
                paths_inside(self.nodes@, idx as int, (reader.limit() - reader.position()) as nat),
                reader.wf(),
                reader.data() == old(reader).data(),
                reader.total() == old(reader).total(),
                walk(
                    self.nodes@,
                    self.root.unwrap() as int,
                    old(reader).stream(),
                    old(reader).position() as int,
                ) == walk(self.nodes@, idx as int, reader.stream(), reader.position() as int),
            decreases reader.stream().len() - reader.position(),
        {
            proof {
                reader.lemma_position_bounded();
            }
            match self.nodes[idx] {
                Some(Node::Leaf(leaf)) => {
                    return Some(leaf.data);
                },
                Some(Node::Branch(branch)) => {
                    proof {
                        assert(self.nodes@[idx as int] is Some);
                    }
                    let ghost before = idx as int;
                    let ghost pos = reader.position() as int;
                    let ghost stream = reader.stream();
                    proof {
                        assert(self.nodes@[before] == Some(Node::Branch(branch)));
                        assert(self.nodes@.len() == self.nodes.len());
                    }
                    let ghost rem = (reader.limit() - reader.position()) as nat;
                    match reader.read_bit() {
                        Some(true) => {
                            proof {
                                assert(rem > 0);
                                assert(paths_inside(
                                    self.nodes@,
                                    branch.right_child() as int,
                                    (rem - 1) as nat,
                                ));
                            }
                            idx = branch.right as usize;
                        },
                        Some(false) => {
                            proof {
                                assert(rem > 0);
                                assert(paths_inside(
                                    self.nodes@,
                                    branch.left_child() as int,
                                    (rem - 1) as nat,
                                ));
                            }
                            idx = branch.left as usize;
                        },
                        None => {
                            return None;
                        },
                    }
                    proof {
                        assert(reader.stream() == stream);
                        assert(stream.len() == reader.limit());
                        assert(walk(self.nodes@, before, stream, pos) == walk(
                            self.nodes@,
                            idx as int,
                            stream,
                            pos + 1,
                        ));
                    }
                },
                None => {
                    return None;
                },
            }
        }
    }

    /// Records the code word of every leaf below the node `root` (the tree's
    /// root if `None`), whose own code word is `current_path` (the empty
    /// one if `None`): a leaf's code word is the path to it, `0` for each
    /// step to a left child and `1` for each step to a right one, and it
    /// goes into the slot of the leaf's byte.
    pub fn populate_cache(&mut self, root: Option<usize>, current_path: Option<(u32, u8)>)
        requires
            root is Some || old(self).root is Some,
            paths_fit(
                old(self).nodes@,
                match root {
                    Some(r) => r as int,
                    None => old(self).root.unwrap() as int,
                },
                match current_path {
                    Some(p) => p.1,
                    None => 0u8,
                },
            ),
        ensures
            final(self).nodes@ == old(self).nodes@,
            final(self).root == old(self).root,
            final(self).cache@ == fill(
                old(self).nodes@,
                match root {
                    Some(r) => r as int,
                    None => old(self).root.unwrap() as int,
                },
                match current_path {
                    Some(p) => p.0,
                    None => 0u32,
                },
                match current_path {
                    Some(p) => p.1,
                    None => 0u8,
                },
                old(self).cache@,
            ),
        decreases 255 - match current_path {
            Some(p) => p.1,
            None => 0u8,
        },
    {
        let start: usize = match root {
            Some(r) => r,
            None => self.root.unwrap(),
        };
        let path: (u32, u8) = match current_path {
            Some(p) => p,
            None => (0, 0),
        };
        match self.nodes[start] {
            Some(Node::Leaf(leaf)) => {
                self.cache[leaf.data as usize] = Some(path);
            },
            Some(Node::Branch(branch)) => {
                proof {
                    assert(self.nodes@[start as int] == Some(Node::Branch(branch)));
                    assert(self.nodes@.len() == self.nodes.len());
                    assert(paths_fit(self.nodes@, start as int, path.1));
                    assert(paths_fit(self.nodes@, branch.left_child() as int, (path.1 + 1) as u8));
                    assert(paths_fit(self.nodes@, branch.right_child() as int, (path.1 + 1) as u8));
                }
                let left_path = (path.0 << 1u32, path.1 + 1);
                self.populate_cache(Some(branch.left as usize), Some(left_path));
                let right_path = ((path.0 << 1u32) | 1u32, path.1 + 1);
                self.populate_cache(Some(branch.right as usize), Some(right_path));
            },
            None => {},
        }
    }

    /// For each byte value read as eight bits, the byte they decode to and
    /// how many of the bits that took; zeros where they do not reach a leaf.
    pub fn build_lut(&self) -> (res: Vec<LUTEntry>)
        requires
            self.walkable(8),
        ensures
            res@.len() == 256,
            forall|b: int|
                0 <= b < 256 ==> #[trigger] res@[b] == lut_entry(
                    self.nodes@,
                    self.root.unwrap() as int,
                    b as u8,
                ),
            forall|b: int|
                0 <= b < 256 && (#[trigger] walk(self.nodes@, self.root.unwrap() as int, bits_of_bytes(seq![b as u8]), 0)).0 is Some ==> walk(self.nodes@, self.root.unwrap() as int, bits_of_bytes(seq![b as u8]), 0) == (
                    Some(res@[b].byte),
                    res@[b].length as int,
                ),
            forall|b: int|
                0 <= b < 256 && (#[trigger] walk(self.nodes@, self.root.unwrap() as int, bits_of_bytes(seq![b as u8]), 0)).0 is None ==> res@[b] == (LUTEntry { length: 0, byte: 0 }),
    {
        let mut res: Vec<LUTEntry> = Vec::new();
        let mut byte: usize = 0;
        let mut bytes: Vec<u8> = vec![0u8; 1];
        while byte < 256
            invariant
                self.walkable(8),
                byte <= 256,
                bytes@.len() == 1,
                res@.len() == byte,
                forall|b: int|
                    0 <= b < byte ==> #[trigger] res@[b] == lut_entry(
                        self.nodes@,
                        self.root.unwrap() as int,
                        b as u8,
                    ),
            decreases 256 - byte,
        {
            bytes.set(0, byte as u8);
            let mut reader = BitReader::new(&bytes, 8);
            proof {
                assert(bytes@ =~= seq![byte as u8]);
                assert(reader.stream() =~= bits_of_bytes(seq![byte as u8]));
                lemma_walk_bounds(self.nodes@, self.root.unwrap() as int, reader.stream(), 0);
            }
            let entry = match self.get_next_leaf(&mut reader) {
                Some(val) => LUTEntry { length: reader.bits_read() as u8, byte: val },
                None => LUTEntry { length: 0, byte: 0 },
            };
            res.push(entry);
            byte = byte + 1;
        }
        proof {
            assert forall|b: int| 0 <= b < 256 implies (walk(self.nodes@, self.root.unwrap() as int, bits_of_bytes(seq![b as u8]), 0).0 is Some ==> walk(self.nodes@, self.root.unwrap() as int, bits_of_bytes(seq![b as u8]), 0) == (
                    Some(res@[b].byte),
                    res@[b].length as int,
                )) && (walk(self.nodes@, self.root.unwrap() as int, bits_of_bytes(seq![b as u8]), 0).0 is None
                ==> res@[b] == (LUTEntry { length: 0, byte: 0 })) by {
                lemma_walk_bounds(self.nodes@, self.root.unwrap() as int, bits_of_bytes(seq![b as u8]), 0);
                assert(res@[b] == lut_entry(self.nodes@, self.root.unwrap() as int, b as u8));
            }
        }
        res
    }
}

/// A code word that can be written: present, and of at most 32 bits.
pub open spec fn usable(entry: Option<(u32, u8)>) -> bool {
    entry matches Some(e) && e.1 <= 32
}

/// The bits of a code table entry (none for an empty slot).
pub open spec fn entry_bits(entry: Option<(u32, u8)>) -> Seq<bool> {
    match entry {
        Some(e) => code_bits(e.0, e.1 as nat),
        None => Seq::empty(),
    }
}

/// The code words of the bytes of `data`, one after another.
pub open spec fn encoded(cache: Seq<Option<(u32, u8)>>, data: Seq<u8>) -> Seq<bool>
    decreases data.len(),
{
    if data.len() == 0 {
        Seq::empty()
    } else {
        encoded(cache, data.drop_last()) + entry_bits(cache[data.last() as int])
    }
}

/// The bytes decoded from `bits` from position `pos` on, one symbol after
/// another from node `root`, until a symbol cannot be completed.
pub open spec fn decode_from(nodes: Seq<Option<Node>>, root: int, bits: Seq<bool>, pos: int) -> Seq<u8>
    decreases bits.len() - pos,
{
    let (r, q) = walk(nodes, root, bits, pos);
    match r {
        Some(d) => if pos < q <= bits.len() {
            seq![d] + decode_from(nodes, root, bits, q)
        } else {
            seq![d]
        },
        None => Seq::empty(),
    }
}

/// The entry of slot `d` decodes from node `idx` to `d`: its code word
/// starts with the `l0` bits of `code` (the path to `idx`), and following
/// the rest of it from `idx` ends at a leaf for `d` exactly at its end.
pub open spec fn decodes_to(
    nodes: Seq<Option<Node>>,
    idx: int,
    entry: Option<(u32, u8)>,
    code: u32,
    l0: u8,
    d: int,
) -> bool {
    match entry {
        Some(e) => {
            &&& l0 <= e.1 <= 32
            &&& code_bits(e.0, e.1 as nat).take(l0 as int) == code_bits(code, l0 as nat)
            &&& walk(nodes, idx, code_bits(e.0, e.1 as nat), l0 as int) == (
                Some(d as u8),
                e.1 as int,
            )
        },
        None => false,
    }
}

proof fn lemma_shift_in_u32(code: u32, b: u32, s: u32)
    by (bit_vector)
    requires
        b <= 1u32,
        s < 31u32,
    ensures
        (((code << 1u32) | b) >> ((s + 1u32) as u32)) & 1u32 == (code >> s) & 1u32,
        (((code << 1u32) | b) >> 0u32) & 1u32 == b,
{
}

proof fn lemma_code_bits_extend(code: u32, b: u32, n: nat)
    requires
        b <= 1,
        n < 32,
    ensures
        code_bits((code << 1u32) | b, n + 1) == code_bits(code, n).push(b == 1u32),
{
    let l = code_bits((code << 1u32) | b, n + 1);
    let r = code_bits(code, n).push(b == 1u32);
    assert forall|j: int| 0 <= j < n + 1 implies l[j] == r[j] by {
        if j < n {
            let s: u32 = (n - 1 - j) as u32;
            lemma_shift_in_u32(code, b, s);
            assert(((n + 1) - 1 - j) as u32 == (s + 1u32) as u32);
        } else {
            lemma_shift_in_u32(code, b, 0u32);
            assert(((n + 1) - 1 - j) as u32 == 0u32);
        }
    }
    assert(l =~= r);
}

/// Every code word of at most 32 bits that filling in records below node
/// `idx` decodes from `idx` to the byte of its slot; the other slots keep
/// what they held, or get a code word too long to be written.
pub proof fn lemma_fill_decodes(
    nodes: Seq<Option<Node>>,
    idx: int,
    code: u32,
    l0: u8,
    cache: Seq<Option<(u32, u8)>>,
)
    requires
        paths_fit(nodes, idx, l0),
        cache.len() == 256,
    ensures
        fill(nodes, idx, code, l0, cache).len() == 256,
        forall|d: int|
            0 <= d < 256 ==> #[trigger] fill(nodes, idx, code, l0, cache)[d] == cache[d]
                || !usable(fill(nodes, idx, code, l0, cache)[d])
                || decodes_to(nodes, idx, fill(nodes, idx, code, l0, cache)[d], code, l0, d),
    decreases 255 - l0,
{
    let res = fill(nodes, idx, code, l0, cache);
    match nodes[idx] {
        Some(Node::Leaf(l)) => {
            assert(code_bits(code, l0 as nat).take(l0 as int) =~= code_bits(code, l0 as nat));
        },
        Some(Node::Branch(b)) => {
            let lc = b.left_child() as int;
            let rc = b.right_child() as int;
            let next = (l0 + 1) as u8;
            let lcode = code << 1u32;
            let rcode = (code << 1u32) | 1u32;
            let mid = fill(nodes, lc, lcode, next, cache);
            lemma_fill_decodes(nodes, lc, lcode, next, cache);
            lemma_fill_decodes(nodes, rc, rcode, next, mid);
            if l0 < 32 {
                lemma_code_bits_extend(code, 0u32, l0 as nat);
                lemma_code_bits_extend(code, 1u32, l0 as nat);
            }
            assert((code << 1u32) | 0u32 == code << 1u32) by (bit_vector);
            assert forall|d: int| 0 <= d < 256 implies #[trigger] res[d] == cache[d] || !usable(res[d])
                || decodes_to(nodes, idx, res[d], code, l0, d) by {
                if !usable(res[d]) {
                } else if res[d] != mid[d] {
                    let e = res[d].unwrap();
                    let cb = code_bits(e.0, e.1 as nat);
                    assert(cb.take(l0 as int) =~= cb.take(next as int).take(l0 as int));
                    assert(code_bits(code, l0 as nat).push(true).take(l0 as int) =~= code_bits(code, l0 as nat));
                    assert(cb[l0 as int] == cb.take(next as int)[l0 as int]);
                } else if mid[d] != cache[d] && usable(mid[d]) {
                    let e = mid[d].unwrap();
                    let cb = code_bits(e.0, e.1 as nat);
                    assert(cb.take(l0 as int) =~= cb.take(next as int).take(l0 as int));
                    assert(code_bits(code, l0 as nat).push(false).take(l0 as int) =~= code_bits(code, l0 as nat));
                    assert(cb[l0 as int] == cb.take(next as int)[l0 as int]);
                }
            }
        },
        None => {},
    }
}

/// A completed walk reads only the bits it follows: the same bits found
/// at another position of another sequence give the same byte.
pub proof fn lemma_walk_same_bits(
    nodes: Seq<Option<Node>>,
    idx: int,
    a: Seq<bool>,
    pa: int,
    b: Seq<bool>,
    pb: int,
)
    requires
        walk(nodes, idx, a, pa).0 is Some,
        0 <= pa <= a.len(),
        0 <= pb,
        pb + (walk(nodes, idx, a, pa).1 - pa) <= b.len(),
        a.subrange(pa, walk(nodes, idx, a, pa).1) == b.subrange(
            pb,
            pb + walk(nodes, idx, a, pa).1 - pa,
        ),
    ensures
        walk(nodes, idx, b, pb) == (walk(nodes, idx, a, pa).0, pb + walk(nodes, idx, a, pa).1 - pa),
    decreases a.len() - pa,
{
    lemma_walk_bounds(nodes, idx, a, pa);
    if let Some(Node::Branch(br)) = nodes[idx] {
        let child: int = if a[pa] {
            br.right_child() as int
        } else {
            br.left_child() as int
        };
        let q = walk(nodes, idx, a, pa).1;
        assert(a.subrange(pa, q)[0] == b.subrange(pb, pb + q - pa)[0]);
        lemma_walk_bounds(nodes, child, a, pa + 1);
        assert(a.subrange(pa + 1, q) =~= a.subrange(pa, q).skip(1));
        assert(b.subrange(pb + 1, pb + q - pa) =~= b.subrange(pb, pb + q - pa).skip(1));
        lemma_walk_same_bits(nodes, child, a, pa + 1, b, pb + 1);
    }
}

/// Every path down from node `idx` meets only occupied slots of `nodes`
/// and reaches a leaf within `depth` branches.
pub open spec fn leaves_within(nodes: Seq<Option<Node>>, idx: int, depth: nat) -> bool
    decreases depth,
{
    0 <= idx < nodes.len() && match nodes[idx] {
        Some(Node::Leaf(_)) => true,
        Some(Node::Branch(b)) => depth > 0 && leaves_within(
            nodes,
            b.left_child() as int,
            (depth - 1) as nat,
        ) && leaves_within(nodes, b.right_child() as int, (depth - 1) as nat),
        None => false,
    }
}

proof fn lemma_leaves_within_fit(nodes: Seq<Option<Node>>, idx: int, depth: nat, len: u8)
    requires
        leaves_within(nodes, idx, depth),
        len + depth <= 255,
    ensures
        paths_fit(nodes, idx, len),
    decreases depth,
{
    if let Some(Node::Branch(b)) = nodes[idx] {
        lemma_leaves_within_fit(nodes, b.left_child() as int, (depth - 1) as nat, (len + 1) as u8);
        lemma_leaves_within_fit(nodes, b.right_child() as int, (depth - 1) as nat, (len + 1) as u8);
    }
}

proof fn lemma_fill_len(
    nodes: Seq<Option<Node>>,
    idx: int,
    code: u32,
    len: u8,
    cache: Seq<Option<(u32, u8)>>,
)
    requires
        cache.len() == 256,
    ensures
        fill(nodes, idx, code, len, cache).len() == cache.len(),
    decreases 255 - len,
{
    if 0 <= idx < nodes.len() {
        if let Some(Node::Branch(b)) = nodes[idx] {
            if len < 255 {
                let next = (len + 1) as u8;
                let mid = fill(nodes, b.left_child() as int, code << 1u32, next, cache);
                lemma_fill_len(nodes, b.left_child() as int, code << 1u32, next, cache);
                lemma_fill_len(nodes, b.right_child() as int, (code << 1u32) | 1u32, next, mid);
            }
        }
    }
}

proof fn lemma_fill_keeps_set(
    nodes: Seq<Option<Node>>,
    idx: int,
    code: u32,
    len: u8,
    cache: Seq<Option<(u32, u8)>>,
    d: int,
)
    requires
        cache[d] is Some,
        0 <= d < cache.len(),
        cache.len() == 256,
    ensures
        fill(nodes, idx, code, len, cache)[d] is Some,
        fill(nodes, idx, code, len, cache).len() == cache.len(),
    decreases 255 - len,
{
    if 0 <= idx < nodes.len() {
        if let Some(Node::Branch(b)) = nodes[idx] {
            if len < 255 {
                let next = (len + 1) as u8;
                let mid = fill(nodes, b.left_child() as int, code << 1u32, next, cache);
                lemma_fill_keeps_set(nodes, b.left_child() as int, code << 1u32, next, cache, d);
                lemma_fill_keeps_set(nodes, b.right_child() as int, (code << 1u32) | 1u32, next, mid, d);
            }
        }
    }
}

proof fn lemma_fill_lengths(
    nodes: Seq<Option<Node>>,
    idx: int,
    depth: nat,
    code: u32,
    len: u8,
    cache: Seq<Option<(u32, u8)>>,
)
    requires
        leaves_within(nodes, idx, depth),
        len + depth <= 255,
        cache.len() == 256,
    ensures
        fill(nodes, idx, code, len, cache).len() == cache.len(),
        forall|d: int|
            0 <= d < cache.len() ==> #[trigger] fill(nodes, idx, code, len, cache)[d] == cache[d] || (
            fill(nodes, idx, code, len, cache)[d] matches Some(e) && e.1 <= len + depth),
    decreases depth,
{
    if let Some(Node::Branch(b)) = nodes[idx] {
        let next = (len + 1) as u8;
        let lc = b.left_child() as int;
        let rc = b.right_child() as int;
        let mid = fill(nodes, lc, code << 1u32, next, cache);
        lemma_fill_lengths(nodes, lc, (depth - 1) as nat, code << 1u32, next, cache);
        lemma_fill_lengths(nodes, rc, (depth - 1) as nat, (code << 1u32) | 1u32, next, mid);
    }
}

proof fn lemma_fill_reaches(
    nodes: Seq<Option<Node>>,
    idx: int,
    q: Seq<bool>,
    d: u8,
    code: u32,
    len: u8,
    cache: Seq<Option<(u32, u8)>>,
)
    requires
        walk(nodes, idx, q, 0) == (Some(d), q.len() as int),
        paths_fit(nodes, idx, len),
        cache.len() == 256,
    ensures
        fill(nodes, idx, code, len, cache)[d as int] is Some,
    decreases q.len(),
{
    match nodes[idx] {
        Some(Node::Leaf(l)) => {},
        Some(Node::Branch(b)) => {
            let next = (len + 1) as u8;
            let lc = b.left_child() as int;
            let rc = b.right_child() as int;
            let child = if q[0] { rc } else { lc };
            let rest = q.skip(1);
            lemma_walk_bounds(nodes, child, q, 1);
            assert(q.subrange(1, q.len() as int) =~= rest.subrange(0, rest.len() as int));
            lemma_walk_same_bits(nodes, child, q, 1, rest, 0);
            let mid = fill(nodes, lc, code << 1u32, next, cache);
            if q[0] {
                lemma_fill_len(nodes, lc, code << 1u32, next, cache);
                lemma_fill_reaches(nodes, rc, rest, d, (code << 1u32) | 1u32, next, mid);
            } else {
                lemma_fill_reaches(nodes, lc, rest, d, code << 1u32, next, cache);
                lemma_fill_len(nodes, lc, code << 1u32, next, cache);
                lemma_fill_keeps_set(
                    nodes,
                    rc,
                    (code << 1u32) | 1u32,
                    next,
                    mid,
                    d as int,
                );
            }
        },
        None => {},
    }
}

/// Every leaf that a path of at most 32 bits reaches from the root gets a
/// code word: in a tree whose every path from the root reaches a leaf
/// within 32 branches, if following the bits `p` from the root ends at a
/// leaf for `d` exactly at their end, the code table filled in from the
/// root has an entry for `d` of at most 32 bits, and following that entry's
/// bits from the root ends at a leaf for `d` exactly at their end.
pub proof fn lemma_codes_cover_reached_leaves(
    nodes: Seq<Option<Node>>,
    root: int,
    p: Seq<bool>,
    d: u8,
)
    requires
        leaves_within(nodes, root, 32),
        walk(nodes, root, p, 0) == (Some(d), p.len() as int),
    ensures
        codes_of(nodes, root)[d as int] matches Some(e) && e.1 <= 32 && walk(
            nodes,
            root,
            code_bits(e.0, e.1 as nat),
            0,
        ) == (Some(d), e.1 as int),
{
    lemma_leaves_within_fit(nodes, root, 32, 0);
    lemma_fill_reaches(nodes, root, p, d, 0u32, 0u8, empty_cache());
    lemma_fill_lengths(nodes, root, 32, 0u32, 0u8, empty_cache());
    lemma_fill_decodes(nodes, root, 0u32, 0u8, empty_cache());
    let c = codes_of(nodes, root);
    assert(c[d as int] != empty_cache()[d as int]);
}

/// The lookup table agrees with decoding one symbol: where the next eight
/// bits of a stream are the bits of the byte `b` and the table entry for
/// `b` took some bits, decoding one symbol from there gives the entry's
/// byte and moves past the entry's number of bits.
pub proof fn lemma_lut_entry_decodes(nodes: Seq<Option<Node>>, root: int, b: u8, s: Seq<bool>, pos: int)
    requires
        0 <= pos,
        pos + 8 <= s.len(),
        s.subrange(pos, pos + 8) == bits_of_bytes(seq![b]),
        lut_entry(nodes, root, b).length > 0,
    ensures
        walk(nodes, root, s, pos) == (
            Some(lut_entry(nodes, root, b).byte),
            pos + lut_entry(nodes, root, b).length,
        ),
{
    let bits = bits_of_bytes(seq![b]);
    lemma_walk_bounds(nodes, root, bits, 0);
    let q = walk(nodes, root, bits, 0).1;
    assert(bits.subrange(0, q) =~= s.subrange(pos, pos + q)) by {
        assert forall|i: int| 0 <= i < q implies bits.subrange(0, q)[i] == s.subrange(pos, pos + q)[i] by {
            assert(s.subrange(pos, pos + 8)[i] == s[pos + i]);
        }
    }
    lemma_walk_same_bits(nodes, root, bits, 0, s, pos);
}

proof fn lemma_encoded_add(cache: Seq<Option<(u32, u8)>>, x: Seq<u8>, y: Seq<u8>)
    ensures
        encoded(cache, x + y) == encoded(cache, x) + encoded(cache, y),
    decreases y.len(),
{
    if y.len() == 0 {
        assert(x + y =~= x);
        assert(encoded(cache, x) + encoded(cache, y) =~= encoded(cache, x));
    } else {
        lemma_encoded_add(cache, x, y.drop_last());
        assert((x + y).drop_last() =~= x + y.drop_last());
        assert(encoded(cache, x + y) =~= encoded(cache, x) + encoded(cache, y));
    }
}

/// No slot holds a code word yet.
pub open spec fn empty_cache() -> Seq<Option<(u32, u8)>> {
    Seq::new(256, |i: int| None::<(u32, u8)>)
}

/// The code table filled in from `root` with the empty code word.
pub open spec fn codes_of(nodes: Seq<Option<Node>>, root: int) -> Seq<Option<(u32, u8)>> {
    fill(nodes, root, 0u32, 0u8, empty_cache())
}

proof fn lemma_decode_encoded_after(
    nodes: Seq<Option<Node>>,
    root: int,
    data: Seq<u8>,
    prefix: Seq<bool>,
)
    requires
        nodes[root] matches Some(Node::Branch(_)),
        paths_fit(nodes, root, 0),
        forall|i: int| 0 <= i < data.len() ==> usable(#[trigger] codes_of(nodes, root)[data[i] as int]),
    ensures
        decode_from(nodes, root, prefix + encoded(codes_of(nodes, root), data), prefix.len() as int)
            == data,
    decreases data.len(),
{
    let cache = codes_of(nodes, root);
    let stream = prefix + encoded(cache, data);
    lemma_fill_decodes(nodes, root, 0u32, 0u8, empty_cache());
    if data.len() == 0 {
        assert(stream =~= prefix);
        assert(decode_from(nodes, root, stream, prefix.len() as int) =~= data);
    } else {
        let x = data[0];
        let rest = data.skip(1);
        assert(data =~= seq![x] + rest);
        assert(seq![x].drop_last() =~= Seq::<u8>::empty());
        lemma_encoded_add(cache, seq![x], rest);
        let e = cache[x as int].unwrap();
        let cb = code_bits(e.0, e.1 as nat);
        assert(seq![x].last() == x);
        assert(encoded(cache, Seq::<u8>::empty()) =~= Seq::<bool>::empty());
        assert(encoded(cache, seq![x]) == encoded(cache, Seq::<u8>::empty()) + entry_bits(cache[x as int]));
        assert(encoded(cache, seq![x]) =~= cb);
        assert(decodes_to(nodes, root, cache[x as int], 0u32, 0u8, x as int));
        assert(cb.take(0) =~= code_bits(0u32, 0nat));
        lemma_walk_bounds(nodes, root, cb, 0);
        assert(cb.subrange(0, e.1 as int) =~= stream.subrange(
            prefix.len() as int,
            prefix.len() + e.1,
        ));
        lemma_walk_same_bits(nodes, root, cb, 0, stream, prefix.len() as int);
        let p2 = prefix + cb;
        assert(stream =~= p2 + encoded(cache, rest));
        assert forall|i: int| 0 <= i < rest.len() implies usable(#[trigger] codes_of(nodes, root)[rest[i] as int]) by {
            assert(rest[i] == data[i + 1]);
        }
        lemma_decode_encoded_after(nodes, root, rest, p2);
        assert(walk(nodes, root, stream, prefix.len() as int) == (Some(x), prefix.len() + e.1));
        assert(e.1 > 0);
        assert(decode_from(nodes, root, stream, prefix.len() as int) =~= seq![x] + rest);
    }
}

/// What `encode` writes, `decode` reads back: over a tree whose root is a
/// branch and whose paths down from the root fit, with the code table
/// filled in from the root, decoding the code words of `data` (every byte
/// of which has one of at most 32 bits) gives `data` back.
pub proof fn lemma_decode_encoded(nodes: Seq<Option<Node>>, root: int, data: Seq<u8>)
    requires
        nodes[root] matches Some(Node::Branch(_)),
        paths_fit(nodes, root, 0),
        forall|i: int| 0 <= i < data.len() ==> usable(#[trigger] codes_of(nodes, root)[data[i] as int]),
    ensures
        decode_from(nodes, root, encoded(codes_of(nodes, root), data), 0) == data,
{
    lemma_decode_encoded_after(nodes, root, data, Seq::empty());
    assert(Seq::<bool>::empty() + encoded(codes_of(nodes, root), data) =~= encoded(
        codes_of(nodes, root),
        data,
    ));
}

proof fn lemma_branch_walk_advances(nodes: Seq<Option<Node>>, root: int, bits: Seq<bool>, pos: int)
    requires
        0 <= root < nodes.len(),
        nodes[root] matches Some(Node::Branch(_)),
        0 <= pos <= bits.len(),
        walk(nodes, root, bits, pos).0 is Some,
    ensures
        pos < walk(nodes, root, bits, pos).1 <= bits.len(),
{
    if let Some(Node::Branch(b)) = nodes[root] {
        let child: int = if bits[pos] {
            b.right_child() as int
        } else {
            b.left_child() as int
        };
        lemma_walk_bounds(nodes, child, bits, pos + 1);
    }
}

impl Tree {
    /// Writes the code words of the bytes of `data`, one after another,
    /// into a fresh buffer, and gives it with the number of bits written;
    /// the last byte is padded with zero bits. Gives nothing if a byte of
    /// `data` has no code word of at most 32 bits.
    pub fn encode(&self, data: &[u8]) -> (res: Option<(Vec<u8>, u64)>)
        requires
            32 * data@.len() <= u64::MAX,
        ensures
            res is None <==> exists|i: int|
                0 <= i < data@.len() && !usable(#[trigger] self.cache@[data@[i] as int]),
            (forall|i: int|
                0 <= i < data@.len() ==> match #[trigger] self.cache@[data@[i] as int] {
                    Some(e) => e.1 <= 32,
                    None => false,
                }) ==> res is Some,
            res is None ==> exists|i: int|
                0 <= i < data@.len() && match #[trigger] self.cache@[data@[i] as int] {
                    Some(e) => e.1 > 32,
                    None => true,
                },
            res matches Some(r) ==> {
                &&& r.1 == encoded(self.cache@, data@).len()
                &&& r.1 <= 8 * r.0@.len() < r.1 + 8
                &&& bits_of_bytes(r.0@) == encoded(self.cache@, data@) + zeros(
                    (8 * r.0@.len() - r.1) as nat,
                )
            },
    {
        let mut buffer: Vec<u8> = Vec::new();
        let count: u64;
        {
            let mut writer = BitWriter::new(&mut buffer);
            let mut i: usize = 0;
            proof {
                assert(data@.take(0) =~= Seq::<u8>::empty());
                assert(writer.bits() =~= Seq::<bool>::empty());
            }
            while i < data.len()
                invariant
                    32 * data@.len() <= u64::MAX,
                    0 <= i <= data@.len(),
                    writer.wf(),
                    writer.bits() == encoded(self.cache@, data@.take(i as int)),
                    encoded(self.cache@, data@.take(i as int)).len() <= 32 * i,
                    forall|j: int| 0 <= j < i ==> usable(#[trigger] self.cache@[data@[j] as int]),
                    after_borrow(buffer)@ == final(writer.buffer)@,
                decreases data.len() - i,
            {
                let byte = data[i];
                proof {
                    assert(data@.take(i + 1).drop_last() =~= data@.take(i as int));
                }
                match self.find_leaf(byte) {
                    Some(bits) => {
                        if bits.1 > 32 {
                            return None;
                        }
                        writer.push_code(bits);
                    },
                    None => {
                        return None;
                    },
                }
                i = i + 1;
            }
            proof {
                assert(data@.take(i as int) =~= data@);
            }
            count = (writer.buffer.len() as u64) * 8 + (writer.bit_count as u64);
            writer.flush();
            proof {
                assert(writer.bits() =~= bits_of_bytes(writer.buffer@));
            }
        }
        Some((buffer, count))
    }

    /// Decodes symbol after symbol from `reader` until one cannot be
    /// completed, and gives the bytes decoded.
    pub fn decode(&self, reader: &mut BitReader) -> (out: Vec<u8>)
        requires
            self.walkable((old(reader).limit() - old(reader).position()) as nat),
            self.nodes@[self.root.unwrap() as int] matches Some(Node::Branch(_)),
            old(reader).wf(),
        ensures
            final(reader).wf(),
            out@ == decode_from(
                self.nodes@,
                self.root.unwrap() as int,
                old(reader).stream(),
                old(reader).position() as int,
            ),
    {
        let mut out: Vec<u8> = Vec::new();
        let ghost stream = reader.stream();
        let ghost root = self.root.unwrap() as int;
        let ghost goal = decode_from(self.nodes@, root, stream, reader.position() as int);
        loop
            invariant_except_break
                self.walkable((reader.limit() - reader.position()) as nat),
                reader.limit() == old(reader).limit(),
                self.nodes@[root] matches Some(Node::Branch(_)),
                root == self.root.unwrap() as int,
                reader.wf(),
                reader.stream() == stream,
                out@ + decode_from(self.nodes@, root, stream, reader.position() as int) == goal,
            ensures
                reader.wf(),
                out@ == goal,
            decreases stream.len() - reader.position(),
        {
            proof {
                reader.lemma_position_bounded();
            }
            let ghost pos = reader.position() as int;
            let ghost rem = (reader.limit() - reader.position()) as nat;
            match self.get_next_leaf(reader) {
                Some(b) => {
                    proof {
                        lemma_branch_walk_advances(self.nodes@, root, stream, pos);
                        lemma_paths_inside_shorter(
                            self.nodes@,
                            root,
                            rem,
                            (reader.limit() - reader.position()) as nat,
                        );
                        assert(decode_from(self.nodes@, root, stream, pos) == seq![b]
                            + decode_from(self.nodes@, root, stream, reader.position() as int));
                    }
                    out.push(b);
                    proof {
                        assert(out@ + decode_from(self.nodes@, root, stream, reader.position() as int)
                            =~= goal);
                    }
                },
                None => {
                    proof {
                        assert(out@ =~= goal);
                    }
                    break;
                },
            }
        }
        out
    }
}

/// Every slot holds a leaf of nonzero frequency.
pub open spec fn all_positive_leaves(s: Seq<Option<Node>>) -> bool {
    forall|i: int|
        0 <= i < s.len() ==> (#[trigger] s[i] matches Some(Node::Leaf(l)) && l.frequency > 0)
}

/// The frequencies of all the slots of `s`, added up.
pub open spec fn total_freq(s: Seq<Option<Node>>) -> nat {
    freq_sum(s, 0, s.len() as int)
}

/// After dropping the empty slots, every slot is occupied.
pub proof fn lemma_filter_some_all_some(s: Seq<Option<Node>>)
    requires
        all_some(s),
    ensures
        filter_some(s) == s,
    decreases s.len(),
{
    if s.len() > 0 {
        lemma_filter_some_all_some(s.drop_last());
        assert(s.drop_last().push(s.last()) =~= s);
    } else {
        assert(filter_some(s) =~= s);
    }
}

/// Dropping the empty slots of a table whose slots are empty or hold
/// leaves of nonzero frequency leaves only such leaves.
pub proof fn lemma_filter_some_positive(s: Seq<Option<Node>>)
    requires
        forall|i: int|
            0 <= i < s.len() ==> (#[trigger] s[i] is None || (s[i] matches Some(Node::Leaf(l))
                && l.frequency > 0)),
    ensures
        all_positive_leaves(filter_some(s)),
    decreases s.len(),
{
    if s.len() > 0 {
        let r = s.drop_last();
        assert forall|i: int| 0 <= i < r.len() implies (#[trigger] r[i] is None || (r[i] matches Some(
            Node::Leaf(l),
        ) && l.frequency > 0)) by {
            assert(r[i] == s[i]);
        }
        lemma_filter_some_positive(r);
        assert(s[s.len() - 1] == s.last());
    }
}

/// Appending a node adds its frequency to the sum.
pub proof fn lemma_total_push(s: Seq<Option<Node>>, x: Option<Node>)
    ensures
        total_freq(s.push(x)) == total_freq(s) + slot_freq(x),
{
    lemma_freq_sum_push(s, x, 0, s.len() as int);
    assert(s.push(x)[s.len() as int] == x);
}

proof fn lemma_insert_total(s: Seq<Option<Node>>, n: Option<Node>)
    ensures
        total_freq(insert_by_freq(s, n)) == total_freq(s) + slot_freq(n),
    decreases s.len(),
{
    if s.len() == 0 {
        assert(seq![n] =~= s.push(n));
        lemma_total_push(s, n);
    } else if slot_freq(s.last()) <= slot_freq(n) {
        lemma_total_push(s, n);
    } else {
        let r = s.drop_last();
        lemma_insert_total(r, n);
        lemma_total_push(insert_by_freq(r, n), s.last());
        lemma_total_push(r, s.last());
        assert(r.push(s.last()) =~= s);
    }
}

proof fn lemma_insert_positive(s: Seq<Option<Node>>, n: Option<Node>)
    requires
        all_positive_leaves(s),
        n matches Some(Node::Leaf(l)) && l.frequency > 0,
    ensures
        all_positive_leaves(insert_by_freq(s, n)),
    decreases s.len(),
{
    if s.len() == 0 {
    } else if slot_freq(s.last()) <= slot_freq(n) {
    } else {
        let r = s.drop_last();
        assert(all_positive_leaves(r));
        lemma_insert_positive(r, n);
        assert(s[s.len() - 1] == s.last());
    }
}

/// Sorting keeps the frequencies' sum, and keeps leaves leaves.
pub proof fn lemma_sort_keeps(s: Seq<Option<Node>>)
    ensures
        total_freq(sort_by_freq(s)) == total_freq(s),
        all_positive_leaves(s) ==> all_positive_leaves(sort_by_freq(s)),
        sort_by_freq(s).len() == s.len(),
    decreases s.len(),
{
    lemma_sort_props(s);
    if s.len() > 0 {
        let r = s.drop_last();
        lemma_sort_keeps(r);
        lemma_insert_total(sort_by_freq(r), s.last());
        lemma_total_push(r, s.last());
        assert(r.push(s.last()) =~= s);
        if all_positive_leaves(s) {
            assert(all_positive_leaves(r));
            assert(s[s.len() - 1] == s.last());
            lemma_insert_positive(sort_by_freq(r), s.last());
        }
    }
}

/// In a tree whose first `n` slots hold leaves and whose branches point at
/// slots before them, every path down from the node at index `i` with a
/// code word of `len` bits fits, as long as `len` leaves room for one more
/// bit for each branch from `n` to `i`.
pub proof fn lemma_paths_fit_built(nodes: Seq<Option<Node>>, n: int, i: int, len: u8)
    requires
        all_some(nodes),
        children_before(nodes),
        0 <= i < nodes.len(),
        1 <= n,
        forall|j: int| 0 <= j < n && j < nodes.len() ==> #[trigger] nodes[j] matches Some(Node::Leaf(_)),
        len + (if i < n {
            0
        } else {
            i - n + 1
        }) <= 255,
    ensures
        paths_fit(nodes, i, len),
    decreases i,
{
    assert(nodes[i] is Some);
    if let Some(Node::Branch(b)) = nodes[i] {
        let lc = b.left_child() as int;
        let rc = b.right_child() as int;
        assert(lc < i && rc < i);
        lemma_paths_fit_built(nodes, n, lc, (len + 1) as u8);
        lemma_paths_fit_built(nodes, n, rc, (len + 1) as u8);
    }
}

} // verus!
