//! The tree of hashes over the chunks of a transaction's data.

use crate::crypto;
use crate::encoding;
use crate::views;
use vstd::prelude::*;

verus! {

/// The most bytes that a chunk holds.
pub const MAX_CHUNK_SIZE: usize = 262144;

/// The least bytes that are left for a chunk of their own behind a full chunk.
pub const MIN_CHUNK_SIZE: usize = 32768;

/// How many of the `n` bytes that are left go into the next chunk: all of them where they do not
/// fill it, half of them where a full chunk would leave too few for the last one.
pub open spec fn next_chunk(n: nat) -> nat {
    if n < MAX_CHUNK_SIZE {
        n
    } else if MAX_CHUNK_SIZE < n < MAX_CHUNK_SIZE + MIN_CHUNK_SIZE {
        (n + 1) / 2
    } else {
        MAX_CHUNK_SIZE as nat
    }
}

/// The lengths of the chunks of `n` bytes. The last chunk is never full: behind a full one stands
/// an empty one.
pub open spec fn chunk_lens(n: nat) -> Seq<nat>
    decreases n,
{
    if n < MAX_CHUNK_SIZE {
        seq![n]
    } else {
        seq![next_chunk(n)] + chunk_lens((n - next_chunk(n)) as nat)
    }
}

/// The sum of lengths.
pub open spec fn total(lens: Seq<nat>) -> nat
    decreases lens.len(),
{
    if lens.len() == 0 {
        0
    } else {
        lens[0] + total(lens.drop_first())
    }
}

/// The chunks hold every byte once, and none holds more than a chunk can.
pub proof fn chunks_tile_the_data(n: nat)
    ensures
        total(chunk_lens(n)) == n,
        forall|i: int| 0 <= i < chunk_lens(n).len() ==> #[trigger] chunk_lens(n)[i]
            <= MAX_CHUNK_SIZE,
        chunk_lens(n).last() < MAX_CHUNK_SIZE,
    decreases n,
{
    let lens = chunk_lens(n);
    if n < MAX_CHUNK_SIZE {
        assert(total(lens.drop_first()) == 0);
    } else {
        let rest = chunk_lens((n - next_chunk(n)) as nat);
        chunks_tile_the_data((n - next_chunk(n)) as nat);
        assert(lens.drop_first() =~= rest);
        assert forall|i: int| 0 <= i < lens.len() implies #[trigger] lens[i] <= MAX_CHUNK_SIZE by {
            if i > 0 {
                assert(lens[i] == rest[i - 1]);
            }
        }
    }
}

/// A tree of hashes. A leaf stands for the bytes from `start` to `end`.
pub enum Tree {
    Leaf { start: nat, end: nat, data_hash: Seq<u8> },
    Branch { left: Box<Tree>, right: Box<Tree> },
}

/// Where the bytes under a tree end.
pub open spec fn end(tree: Tree) -> nat
    decreases tree,
{
    match tree {
        Tree::Leaf { end, .. } => end,
        Tree::Branch { right, .. } => end(*right),
    }
}

/// The hash that stands for a leaf.
pub open spec fn leaf_id(data_hash: Seq<u8>, end: nat) -> Seq<u8> {
    crypto::sha256(crypto::sha256(data_hash) + crypto::sha256(encoding::note(end)))
}

/// The hash that stands for a branch, from those of its children and where the left one ends.
pub open spec fn branch_id(left: Seq<u8>, right: Seq<u8>, split: nat) -> Seq<u8> {
    crypto::sha256(
        crypto::sha256(left) + crypto::sha256(right) + crypto::sha256(encoding::note(split)),
    )
}

/// The hash that stands for a tree.
pub open spec fn id(tree: Tree) -> Seq<u8>
    decreases tree,
{
    match tree {
        Tree::Leaf { end, data_hash, .. } => leaf_id(data_hash, end),
        Tree::Branch { left, right } => branch_id(id(*left), id(*right), end(*left)),
    }
}

/// The leaves for chunks of `data` that start at `start` and have the given lengths.
pub open spec fn leaves_from(data: Seq<u8>, start: nat, lens: Seq<nat>) -> Seq<Tree>
    decreases lens.len(),
{
    if lens.len() == 0 {
        Seq::empty()
    } else {
        let end = start + lens[0];
        seq![
            Tree::Leaf {
                start,
                end,
                data_hash: crypto::sha256(data.subrange(start as int, end as int)),
            },
        ] + leaves_from(data, end, lens.drop_first())
    }
}

/// The leaves for the chunks of `data`.
pub open spec fn leaves(data: Seq<u8>) -> Seq<Tree> {
    leaves_from(data, 0, chunk_lens(data.len()))
}

/// Every two neighbours joined; the last one stays alone where it has no partner.
pub open spec fn pair_up(trees: Seq<Tree>) -> Seq<Tree>
    decreases trees.len(),
{
    if trees.len() < 2 {
        trees
    } else {
        seq![Tree::Branch { left: Box::new(trees[0]), right: Box::new(trees[1]) }] + pair_up(
            trees.skip(2),
        )
    }
}

proof fn lemma_pair_up_len(trees: Seq<Tree>)
    ensures
        pair_up(trees).len() == (trees.len() + 1) / 2,
    decreases trees.len(),
{
    if trees.len() >= 2 {
        lemma_pair_up_len(trees.skip(2));
    }
}

/// One tree over all `trees`: neighbours are joined until one is left.
pub open spec fn root(trees: Seq<Tree>) -> Tree
    recommends
        trees.len() > 0,
    decreases trees.len(),
    via root_decreases
{
    if trees.len() < 2 {
        trees[0]
    } else {
        root(pair_up(trees))
    }
}

#[via_fn]
proof fn root_decreases(trees: Seq<Tree>) {
    lemma_pair_up_len(trees);
}

/// The tree over the chunks of `data`.
pub open spec fn data_tree(data: Seq<u8>) -> Tree {
    root(leaves(data))
}

/// A way from the root of a tree to one of its leaves, for the chunk whose last byte is `offset`.
pub struct Path {
    pub offset: int,
    pub bytes: Seq<u8>,
}

/// The ways to the leaves of a tree, left to right, behind the way to the tree itself. At a branch
/// both children are named, and where the left one ends; at a leaf the hash of its bytes, and
/// where they end.
pub open spec fn paths(tree: Tree, so_far: Seq<u8>) -> Seq<Path>
    decreases tree,
{
    match tree {
        Tree::Leaf { end, data_hash, .. } => seq![
            Path { offset: end - 1, bytes: so_far + data_hash + encoding::note(end) },
        ],
        Tree::Branch { left, right } => {
            let here = so_far + id(*left) + id(*right) + encoding::note(end(*left));
            paths(*left, here) + paths(*right, here)
        },
    }
}

/// The leaves of a tree, left to right.
pub open spec fn leaves_under(tree: Tree) -> Seq<Tree>
    decreases tree,
{
    match tree {
        Tree::Leaf { .. } => seq![tree],
        Tree::Branch { left, right } => leaves_under(*left) + leaves_under(*right),
    }
}

/// The leaves of several trees, left to right.
pub open spec fn leaves_under_all(trees: Seq<Tree>) -> Seq<Tree>
    decreases trees.len(),
{
    if trees.len() == 0 {
        Seq::empty()
    } else {
        leaves_under(trees[0]) + leaves_under_all(trees.drop_first())
    }
}

proof fn lemma_pair_up_keeps_leaves(trees: Seq<Tree>)
    ensures
        leaves_under_all(pair_up(trees)) == leaves_under_all(trees),
    decreases trees.len(),
{
    if trees.len() >= 2 {
        let rest = trees.skip(2);
        lemma_pair_up_keeps_leaves(rest);
        let paired = pair_up(trees);
        assert(paired.drop_first() =~= pair_up(rest));
        assert(trees.drop_first().drop_first() =~= rest);
        reveal_with_fuel(leaves_under_all, 3);
        assert(leaves_under_all(paired) =~= leaves_under_all(trees));
    }
}

/// Joining trees until one is left keeps their leaves in order.
pub proof fn root_keeps_leaves(trees: Seq<Tree>)
    requires
        trees.len() > 0,
    ensures
        leaves_under(root(trees)) == leaves_under_all(trees),
    decreases trees.len(),
{
    if trees.len() >= 2 {
        lemma_pair_up_len(trees);
        lemma_pair_up_keeps_leaves(trees);
        root_keeps_leaves(pair_up(trees));
    } else {
        reveal_with_fuel(leaves_under_all, 2);
        assert(leaves_under_all(trees) =~= leaves_under(trees[0]));
    }
}

/// There is one path for every leaf, in their order: it ends with the hash of the leaf's bytes and
/// where they end, and its offset is that of their last byte.
pub proof fn one_path_per_leaf(tree: Tree, so_far: Seq<u8>)
    ensures
        paths(tree, so_far).len() == leaves_under(tree).len(),
        forall|i: int|
            0 <= i < leaves_under(tree).len() ==> match #[trigger] leaves_under(tree)[i] {
                Tree::Leaf { end, data_hash, .. } => {
                    let path = paths(tree, so_far)[i];
                    &&& path.offset == end - 1
                    &&& (data_hash + encoding::note(end)).is_suffix_of(path.bytes)
                    &&& so_far.is_prefix_of(path.bytes)
                },
                Tree::Branch { .. } => false,
            },
    decreases tree,
{
    match tree {
        Tree::Leaf { end, data_hash, .. } => {
            let path = paths(tree, so_far)[0];
            let tail = data_hash + encoding::note(end);
            assert(path.bytes =~= so_far + tail);
        },
        Tree::Branch { left, right } => {
            let here = so_far + id(*left) + id(*right) + encoding::note(end(*left));
            one_path_per_leaf(*left, here);
            one_path_per_leaf(*right, here);
            assert(so_far.is_prefix_of(here));
        },
    }
}

/// Whether `path` starts by naming two children of the node that `from` stands for, and goes on
/// with `rest`.
pub open spec fn names_children(
    from: Seq<u8>,
    path: Seq<u8>,
    left: Seq<u8>,
    right: Seq<u8>,
    split: nat,
    rest: Seq<u8>,
) -> bool {
    &&& path == left + right + encoding::note(split) + rest
    &&& rest.len() < path.len()
    &&& from == branch_id(left, right, split)
}

/// Whether `path` leads from the node that `from` stands for to the leaf for bytes that have the
/// given hash and end: at every branch the hashes of the children give the hash of the branch.
pub open spec fn leads(from: Seq<u8>, path: Seq<u8>, data_hash: Seq<u8>, end: nat) -> bool
    decreases path.len(),
{
    ||| path == data_hash + encoding::note(end) && from == leaf_id(data_hash, end)
    ||| exists|left: Seq<u8>, right: Seq<u8>, split: nat, rest: Seq<u8>|
        {
            &&& #[trigger] names_children(from, path, left, right, split, rest)
            &&& leads(left, rest, data_hash, end) || leads(right, rest, data_hash, end)
        }
}

proof fn lemma_paths_extend(tree: Tree, so_far: Seq<u8>)
    ensures
        paths(tree, so_far).len() == leaves_under(tree).len(),
        paths(tree, Seq::empty()).len() == leaves_under(tree).len(),
        forall|i: int|
            0 <= i < leaves_under(tree).len() ==> #[trigger] paths(tree, so_far)[i].bytes == so_far
                + paths(tree, Seq::empty())[i].bytes,
    decreases tree,
{
    match tree {
        Tree::Leaf { end, data_hash, .. } => {
            let none = Seq::<u8>::empty();
            assert(so_far + data_hash + encoding::note(end) =~= so_far + (none + data_hash
                + encoding::note(end)));
        },
        Tree::Branch { left, right } => {
            let none = Seq::<u8>::empty();
            let step = id(*left) + id(*right) + encoding::note(end(*left));
            let here = so_far + id(*left) + id(*right) + encoding::note(end(*left));
            let fresh = none + id(*left) + id(*right) + encoding::note(end(*left));
            assert(here =~= so_far + step);
            assert(fresh =~= step);
            lemma_paths_extend(*left, here);
            lemma_paths_extend(*right, here);
            lemma_paths_extend(*left, fresh);
            lemma_paths_extend(*right, fresh);
            assert forall|i: int| 0 <= i < leaves_under(tree).len() implies #[trigger] paths(
                tree,
                so_far,
            )[i].bytes == so_far + paths(tree, none)[i].bytes by {
                let first = leaves_under(*left).len();
                if i < first {
                    let tail = paths(*left, none)[i].bytes;
                    assert(here + tail =~= so_far + (fresh + tail));
                } else {
                    let tail = paths(*right, none)[i - first].bytes;
                    assert(here + tail =~= so_far + (fresh + tail));
                }
            }
        },
    }
}

/// Every path leads from the hash of the whole tree to its leaf.
pub proof fn paths_lead_to_their_leaves(tree: Tree, i: int)
    requires
        0 <= i < leaves_under(tree).len(),
    ensures
        paths(tree, Seq::empty()).len() == leaves_under(tree).len(),
        match leaves_under(tree)[i] {
            Tree::Leaf { end, data_hash, .. } => leads(
                id(tree),
                paths(tree, Seq::empty())[i].bytes,
                data_hash,
                end,
            ),
            Tree::Branch { .. } => false,
        },
    decreases tree,
{
    let none = Seq::<u8>::empty();
    let path = paths(tree, none)[i].bytes;
    lemma_paths_extend(tree, none);
    match tree {
        Tree::Leaf { end, data_hash, .. } => {
            assert(path =~= data_hash + encoding::note(end));
        },
        Tree::Branch { left, right } => {
            let split = end(*left);
            let here = none + id(*left) + id(*right) + encoding::note(split);
            let first = leaves_under(*left).len() as int;
            lemma_paths_extend(*left, here);
            lemma_paths_extend(*right, here);
            encoding::lemma_le_bytes_len(split, 32);
            let rest = if i < first {
                paths_lead_to_their_leaves(*left, i);
                paths(*left, none)[i].bytes
            } else {
                paths_lead_to_their_leaves(*right, i - first);
                paths(*right, none)[i - first].bytes
            };
            assert(path == here + rest);
            assert(path =~= id(*left) + id(*right) + encoding::note(split) + rest);
            assert(names_children(id(tree), path, id(*left), id(*right), split, rest));
        },
    }
}

proof fn lemma_chunk_leaves(data: Seq<u8>, start: nat, lens: Seq<nat>)
    ensures
        leaves_from(data, start, lens).len() == lens.len(),
        leaves_under_all(leaves_from(data, start, lens)) == leaves_from(data, start, lens),
    decreases lens.len(),
{
    let found = leaves_from(data, start, lens);
    if lens.len() > 0 {
        let rest = leaves_from(data, start + lens[0], lens.drop_first());
        lemma_chunk_leaves(data, start + lens[0], lens.drop_first());
        assert(found.drop_first() =~= rest);
        assert(leaves_under(found[0]) == seq![found[0]]);
        assert(leaves_under_all(found) =~= found);
    } else {
        assert(leaves_under_all(found) =~= found);
    }
}

/// The tree over data has the data's chunks as its leaves, in order, and one path for each.
pub proof fn data_tree_covers_the_chunks(data: Seq<u8>)
    ensures
        leaves_under(data_tree(data)) == leaves(data),
        paths(data_tree(data), Seq::empty()).len() == chunk_lens(data.len()).len(),
{
    lemma_chunk_leaves(data, 0, chunk_lens(data.len()));
    root_keeps_leaves(leaves(data));
    one_path_per_leaf(data_tree(data), Seq::empty());
}

/// A node of the tree, with the hash that stands for it.
#[derive(Debug, PartialEq, Eq)]
pub struct Node {
    pub id: Vec<u8>,
    /// Where the bytes of a leaf start, or where the bytes under the left child of a branch end.
    pub min_byte_range: usize,
    /// Where the bytes under the node end.
    pub max_byte_range: usize,
    pub shape: Shape,
}

/// What stands below a node.
#[derive(Debug, PartialEq, Eq)]
pub enum Shape {
    Leaf { data_hash: Vec<u8> },
    Branch { left: Box<Node>, right: Box<Node> },
}

impl Node {
    /// The tree that the node stands for.
    pub open spec fn tree(self) -> Tree
        decreases self,
    {
        match self.shape {
            Shape::Leaf { data_hash } => Tree::Leaf {
                start: self.min_byte_range as nat,
                end: self.max_byte_range as nat,
                data_hash: data_hash@,
            },
            Shape::Branch { left, right } => Tree::Branch {
                left: Box::new(left.tree()),
                right: Box::new(right.tree()),
            },
        }
    }

    /// Every node holds the hash and the range of the tree that it stands for, and every leaf ends
    /// behind a byte.
    pub open spec fn well_formed(self) -> bool
        decreases self,
    {
        &&& self.id@ == id(self.tree())
        &&& self.id@.len() == 32
        &&& self.max_byte_range == end(self.tree())
        &&& match self.shape {
            Shape::Leaf { data_hash } => data_hash@.len() == 32 && self.max_byte_range > 0,
            Shape::Branch { left, right } => left.well_formed() && right.well_formed()
                && self.min_byte_range == end(left.tree()),
        }
    }
}

/// What a [`Node`] holds.
#[verifier::ext_equal]
pub struct NodeFields {
    pub id: Seq<u8>,
    pub min_byte_range: nat,
    pub max_byte_range: nat,
    pub shape: ShapeFields,
}

/// What a [`Shape`] holds.
#[verifier::ext_equal]
pub enum ShapeFields {
    Leaf { data_hash: Seq<u8> },
    Branch { left: Box<NodeFields>, right: Box<NodeFields> },
}

impl Node {
    /// What the node holds.
    pub open spec fn fields(self) -> NodeFields
        decreases self,
    {
        NodeFields {
            id: self.id@,
            min_byte_range: self.min_byte_range as nat,
            max_byte_range: self.max_byte_range as nat,
            shape: match self.shape {
                Shape::Leaf { data_hash } => ShapeFields::Leaf { data_hash: data_hash@ },
                Shape::Branch { left, right } => ShapeFields::Branch {
                    left: Box::new(left.fields()),
                    right: Box::new(right.fields()),
                },
            },
        }
    }
}

impl View for Node {
    type V = NodeFields;

    open spec fn view(&self) -> NodeFields {
        self.fields()
    }
}

/// What the node for a tree holds.
pub open spec fn node_of(tree: Tree) -> NodeFields
    decreases tree,
{
    match tree {
        Tree::Leaf { start, end, data_hash } => NodeFields {
            id: id(tree),
            min_byte_range: start,
            max_byte_range: end,
            shape: ShapeFields::Leaf { data_hash },
        },
        Tree::Branch { left, right } => NodeFields {
            id: id(tree),
            min_byte_range: end(*left),
            max_byte_range: end(tree),
            shape: ShapeFields::Branch {
                left: Box::new(node_of(*left)),
                right: Box::new(node_of(*right)),
            },
        },
    }
}

/// What the nodes for trees hold.
pub open spec fn nodes_of(trees: Seq<Tree>) -> Seq<NodeFields> {
    trees.map_values(|tree: Tree| node_of(tree))
}

/// The trees that nodes stand for.
pub open spec fn trees(nodes: Seq<Node>) -> Seq<Tree> {
    nodes.map_values(|node: Node| node.tree())
}

proof fn lemma_well_formed_fields(node: Node)
    requires
        node.well_formed(),
    ensures
        node@ == node_of(node.tree()),
    decreases node,
{
    if let Shape::Branch { left, right } = node.shape {
        lemma_well_formed_fields(*left);
        lemma_well_formed_fields(*right);
    }
}

impl Clone for Node {
    fn clone(&self) -> (copy: Self)
        ensures
            copy@ == self@,
            copy.tree() == self.tree(),
            self.well_formed() ==> copy.well_formed(),
        decreases self,
    {
        let shape = match &self.shape {
            Shape::Leaf { data_hash } => Shape::Leaf {
                data_hash: vstd::slice::slice_to_vec(data_hash.as_slice()),
            },
            Shape::Branch { left, right } => Shape::Branch {
                left: Box::new((&**left).clone()),
                right: Box::new((&**right).clone()),
            },
        };
        Node {
            id: vstd::slice::slice_to_vec(self.id.as_slice()),
            min_byte_range: self.min_byte_range,
            max_byte_range: self.max_byte_range,
            shape,
        }
    }
}

/// Whether every node is well formed.
pub open spec fn all_well_formed(nodes: Seq<Node>) -> bool {
    forall|i: int| 0 <= i < nodes.len() ==> (#[trigger] nodes[i]).well_formed()
}

/// A path through the tree, with the offset of the last byte of the chunk that it leads to.
#[derive(Debug, PartialEq, Eq)]
pub struct Proof {
    pub offset: usize,
    pub proof: Vec<u8>,
}

impl View for Proof {
    type V = Path;

    open spec fn view(&self) -> Path {
        Path { offset: self.offset as int, bytes: self.proof@ }
    }
}

impl Clone for Proof {
    fn clone(&self) -> (copy: Self)
        ensures
            copy@ == self@,
    {
        Proof {
            offset: self.offset,
            proof: vstd::slice::slice_to_vec(self.proof.as_slice()),
        }
    }
}

/// Hashes the hashes of an id and of where bytes end, behind what `before` holds.
fn close_id(before: Vec<u8>, end: usize) -> (id: Vec<u8>)
    requires
        before@.len() <= 64,
    ensures
        id@ == crypto::sha256(before@ + crypto::sha256(encoding::note(end as nat))),
        id@.len() == 32,
{
    let mut joined = before;
    let ghost start = joined@;
    let note = encoding::note_bytes(end as u64);
    proof {
        encoding::lemma_le_bytes_len(end as nat, 32);
    }
    encoding::push_all(&mut joined, crypto::digest_sha256(note.as_slice()).as_slice());
    assert(joined@ =~= start + crypto::sha256(encoding::note(end as nat)));
    crypto::digest_sha256(joined.as_slice())
}

/// The leaf for the bytes of `data` from `start` to `end`.
fn hash_leaf(data: &[u8], start: usize, end: usize) -> (leaf: Node)
    requires
        start <= end <= data@.len(),
        0 < end,
        end - start <= MAX_CHUNK_SIZE,
    ensures
        leaf.well_formed(),
        leaf.tree() == (Tree::Leaf {
            start: start as nat,
            end: end as nat,
            data_hash: crypto::sha256(data@.subrange(start as int, end as int)),
        }),
{
    let data_hash = crypto::digest_sha256(vstd::slice::slice_subrange(data, start, end));
    let id = close_id(crypto::digest_sha256(data_hash.as_slice()), end);
    Node { id, min_byte_range: start, max_byte_range: end, shape: Shape::Leaf { data_hash } }
}

/// Joins two nodes.
fn hash_branch(left: Node, right: Node) -> (branch: Node)
    requires
        left.well_formed(),
        right.well_formed(),
    ensures
        branch.well_formed(),
        branch.tree() == (Tree::Branch {
            left: Box::new(left.tree()),
            right: Box::new(right.tree()),
        }),
{
    let mut ids = crypto::digest_sha256(left.id.as_slice());
    encoding::push_all(&mut ids, crypto::digest_sha256(right.id.as_slice()).as_slice());
    let id = close_id(ids, left.max_byte_range);
    Node {
        id,
        min_byte_range: left.max_byte_range,
        max_byte_range: right.max_byte_range,
        shape: Shape::Branch { left: Box::new(left), right: Box::new(right) },
    }
}

/// The leaves for the chunks of data.
pub fn generate_leaves(data: &[u8]) -> (found: Vec<Node>)
    requires
        data@.len() > 0,
    ensures
        trees(found@) == leaves(data@),
        views::each(found@) == nodes_of(leaves(data@)),
        all_well_formed(found@),
{
    let mut found: Vec<Node> = Vec::new();
    let size: usize = data.len();
    let mut at: usize = 0;
    while size - at >= MAX_CHUNK_SIZE
        invariant
            at <= size == data@.len(),
            size > 0,
            all_well_formed(found@),
            trees(found@) + leaves_from(data@, at as nat, chunk_lens((size - at) as nat))
                == leaves(data@),
        decreases size - at,
    {
        let left: usize = size - at;
        let len: usize = if MAX_CHUNK_SIZE < left && left < MAX_CHUNK_SIZE + MIN_CHUNK_SIZE {
            (left + 1) / 2
        } else {
            MAX_CHUNK_SIZE
        };
        let ghost before = trees(found@);
        let ghost lens = chunk_lens(left as nat);
        let leaf = hash_leaf(data, at, at + len);
        let ghost seen = leaf.tree();
        found.push(leaf);
        proof {
            assert(lens.drop_first() =~= chunk_lens((left - len) as nat));
            assert(trees(found@) =~= before.push(seen));
            let rest = leaves_from(data@, (at + len) as nat, chunk_lens((left - len) as nat));
            assert(before.push(seen) + rest =~= before + (seq![seen] + rest));
        }
        at = at + len;
    }
    let ghost before = trees(found@);
    let ghost lens = chunk_lens((size - at) as nat);
    let leaf = hash_leaf(data, at, size);
    let ghost seen = leaf.tree();
    found.push(leaf);
    proof {
        assert(lens.drop_first().len() == 0);
        assert(leaves_from(data@, size as nat, lens.drop_first()) =~= Seq::empty());
        assert(leaves_from(data@, at as nat, lens) =~= seq![seen]);
        assert(trees(found@) =~= before + seq![seen]);
        assert forall|i: int| 0 <= i < found@.len() implies (#[trigger] found@[i])@ == node_of(
            leaves(data@)[i],
        ) by {
            lemma_well_formed_fields(found@[i]);
            assert(leaves(data@)[i] == trees(found@)[i]);
        }
        assert(views::each(found@) =~= nodes_of(leaves(data@)));
    }
    found
}

/// Joins neighbours.
fn build_layer(nodes: Vec<Node>) -> (layer: Vec<Node>)
    requires
        all_well_formed(nodes@),
    ensures
        trees(layer@) == pair_up(trees(nodes@)),
        all_well_formed(layer@),
{
    let mut layer: Vec<Node> = Vec::new();
    let mut waiting: Option<Node> = None;
    let ghost all = trees(nodes@);
    assert(all.skip(0) =~= all);
    assert(trees(layer@) + pair_up(all) =~= pair_up(all));
    for node in it: nodes
        invariant
            all_well_formed(it.seq()),
            all == trees(it.seq()),
            all_well_formed(layer@),
            waiting matches Some(left) ==> left.well_formed(),
            trees(layer@) + pair_up(
                match waiting {
                    Some(left) => seq![left.tree()] + all.skip(it.index() as int),
                    None => all.skip(it.index() as int),
                },
            ) == pair_up(all),
    {
        let ghost rest = all.skip(it.index() as int);
        let ghost next = all.skip(it.index() + 1);
        let ghost before = trees(layer@);
        assert(rest =~= seq![node.tree()] + next);
        match waiting {
            None => {
                waiting = Some(node);
            },
            Some(left) => {
                let ghost both = seq![left.tree()] + rest;
                let branch = hash_branch(left, node);
                let ghost seen = branch.tree();
                layer.push(branch);
                waiting = None;
                proof {
                    assert(both.skip(2) =~= next);
                    assert(trees(layer@) =~= before.push(seen));
                    assert(before.push(seen) + pair_up(next) =~= before + (seq![seen] + pair_up(
                        next,
                    )));
                }
            },
        }
    }
    let ghost before = trees(layer@);
    match waiting {
        None => {
            assert(all.skip(all.len() as int) =~= Seq::empty());
            assert(before + Seq::<Tree>::empty() =~= before);
        },
        Some(left) => {
            assert(seq![left.tree()] + all.skip(all.len() as int) =~= seq![left.tree()]);
            layer.push(left);
            assert(trees(layer@) =~= before + seq![left.tree()]);
        },
    }
    layer
}

/// The tree over leaves: neighbours are joined until one node is left.
pub fn generate_data_root(nodes: Vec<Node>) -> (top: Node)
    requires
        nodes@.len() > 0,
        all_well_formed(nodes@),
    ensures
        top.tree() == root(trees(nodes@)),
        top@ == node_of(root(trees(nodes@))),
        top.well_formed(),
{
    let ghost all = trees(nodes@);
    let mut layer = nodes;
    while layer.len() > 1
        invariant
            layer@.len() > 0,
            all_well_formed(layer@),
            root(trees(layer@)) == root(all),
        decreases layer.len(),
    {
        proof {
            lemma_pair_up_len(trees(layer@));
        }
        let ghost before = trees(layer@);
        layer = build_layer(layer);
        assert(root(before) == root(pair_up(before)));
    }
    let top = layer.remove(0);
    proof {
        lemma_well_formed_fields(top);
    }
    top
}

/// The paths to the leaves below a node, behind the path to the node itself.
pub fn resolve_proofs(node: &Node, above: Option<Proof>) -> (proofs: Vec<Proof>)
    requires
        node.well_formed(),
    ensures
        views::each(proofs@) == paths(
            node.tree(),
            match above {
                Some(p) => p.proof@,
                None => Seq::empty(),
            },
        ),
    decreases node,
{
    let mut path: Vec<u8> = match above {
        Some(p) => p.proof,
        None => Vec::new(),
    };
    let ghost so_far = path@;
    match &node.shape {
        Shape::Leaf { data_hash } => {
            encoding::push_all(&mut path, data_hash.as_slice());
            let note = encoding::note_bytes(node.max_byte_range as u64);
            encoding::push_all(&mut path, note.as_slice());
            let mut proofs: Vec<Proof> = Vec::new();
            proofs.push(Proof { offset: node.max_byte_range - 1, proof: path });
            assert(views::each(proofs@) =~= paths(node.tree(), so_far));
            proofs
        },
        Shape::Branch { left, right } => {
            encoding::push_all(&mut path, left.id.as_slice());
            encoding::push_all(&mut path, right.id.as_slice());
            let note = encoding::note_bytes(node.min_byte_range as u64);
            encoding::push_all(&mut path, note.as_slice());
            let ghost here_bytes = path@;
            let here = Proof { offset: 0, proof: path };
            let mut proofs = resolve_proofs(left, Some(here.clone()));
            let ghost first = views::each(proofs@);
            let mut others = resolve_proofs(right, Some(here));
            let ghost second = views::each(others@);
            proofs.append(&mut others);
            proof {
                reveal_with_fuel(Node::well_formed, 2);
                assert(here_bytes =~= so_far + id(left.tree()) + id(right.tree())
                    + encoding::note(end(left.tree())));
                assert(paths(node.tree(), so_far) == first + second);
                assert(views::each(proofs@) =~= first + second);
            }
            proofs
        },
    }
}

/// How bytes are cut into chunks. Every chunk but the last two holds 256 KiB. The last two are
/// either a full chunk and a rest of at least 32 KiB or of nothing, or, where less would be left,
/// two halves, of which the first may be longer by one byte. A single chunk is not full.
pub proof fn chunks_are_full_but_for_the_last_two(n: nat)
    ensures
        ({
            let lens = chunk_lens(n);
            let k = lens.len() as int;
            &&& k >= 1
            &&& total(lens) == n
            &&& forall|i: int| 0 <= i < k - 2 ==> #[trigger] lens[i] == 262144
            &&& k == 1 ==> lens[0] < 262144
            &&& k >= 2 ==> {
                let (last_full, rest) = (lens[k - 2] as int, lens[k - 1] as int);
                ||| last_full == 262144 && (rest == 0 || 32768 <= rest < 262144)
                ||| 262144 < last_full + rest < 262144 + 32768 && 0 <= last_full - rest <= 1
            }
        }),
    decreases n,
{
    chunks_tile_the_data(n);
    if n >= MAX_CHUNK_SIZE {
        let left = (n - next_chunk(n)) as nat;
        let rest = chunk_lens(left);
        chunks_are_full_but_for_the_last_two(left);
        let lens = chunk_lens(n);
        assert(lens.len() == rest.len() + 1);
        assert forall|i: int| 0 <= i < lens.len() - 2 implies #[trigger] lens[i] == 262144 by {
            if i > 0 {
                assert(lens[i] == rest[i - 1]);
            }
        }
        if rest.len() == 1 {
            assert(total(rest.drop_first()) == 0);
            assert(lens[1] == left);
        } else {
            assert(lens[lens.len() - 1] == rest[rest.len() - 1]);
            assert(lens[lens.len() - 2] == rest[rest.len() - 2]);
        }
    }
}

/// The sum of lengths grows by each of them.
pub proof fn totals_grow_by_each_length(lens: Seq<nat>, last: nat)
    ensures
        total(Seq::<nat>::empty()) == 0,
        total(lens.push(last)) == total(lens) + last,
    decreases lens.len(),
{
    let longer = lens.push(last);
    if lens.len() == 0 {
        reveal_with_fuel(total, 2);
    } else {
        totals_grow_by_each_length(lens.drop_first(), last);
        assert(longer.drop_first() =~= lens.drop_first().push(last));
    }
}

/// The leaves of data follow each other from its first byte to its last, are as long as its
/// chunks, and hold the hashes of their bytes.
pub proof fn leaves_cover_the_data(data: Seq<u8>, i: int)
    requires
        0 <= i < leaves(data).len(),
    ensures
        leaves(data).len() == chunk_lens(data.len()).len(),
        match leaves(data)[i] {
            Tree::Leaf { start, end: stop, data_hash } => {
                &&& i == 0 ==> start == 0
                &&& i > 0 ==> end(leaves(data)[i - 1]) == start
                &&& i == leaves(data).len() - 1 ==> stop == data.len()
                &&& start <= stop <= data.len()
                &&& stop - start == chunk_lens(data.len())[i]
                &&& data_hash == crypto::sha256(data.subrange(start as int, stop as int))
            },
            Tree::Branch { .. } => false,
        },
{
    chunks_tile_the_data(data.len());
    lemma_leaf_at(data, 0, chunk_lens(data.len()), i);
    if i > 0 {
        lemma_leaf_at(data, 0, chunk_lens(data.len()), i - 1);
    }
}

proof fn lemma_leaf_at(data: Seq<u8>, start: nat, lens: Seq<nat>, i: int)
    requires
        0 <= i < leaves_from(data, start, lens).len(),
    ensures
        leaves_from(data, start, lens).len() == lens.len(),
        ({
            let (from, to) = (start + total(lens.take(i)), start + total(lens.take(i + 1)));
            &&& leaves_from(data, start, lens)[i] == (Tree::Leaf {
                start: from,
                end: to,
                data_hash: crypto::sha256(data.subrange(from as int, to as int)),
            })
            &&& to == from + lens[i]
            &&& to <= start + total(lens)
            &&& i == lens.len() - 1 ==> to == start + total(lens)
        }),
    decreases lens.len(),
{
    lemma_chunk_leaves(data, start, lens);
    let rest = lens.drop_first();
    assert(lens.take(i + 1).drop_first() =~= rest.take(i));
    if i == 0 {
        reveal_with_fuel(total, 2);
        assert(lens.take(1).drop_first() =~= Seq::empty());
        assert(total(lens.take(0)) == 0);
    } else {
        assert(lens.take(i).drop_first() =~= rest.take(i - 1));
        lemma_leaf_at(data, start + lens[0], rest, i - 1);
    }
    if lens.len() == 1 {
        assert(rest =~= Seq::empty());
    }
}

/// A leaf is known by the hashes of the hash of its bytes and of where they end; a branch by the
/// hashes of what its children are known by and of where the left one ends.
pub proof fn ids_are_hashes_of_hashes(
    start: nat,
    stop: nat,
    data_hash: Seq<u8>,
    left: Tree,
    right: Tree,
)
    ensures
        id(Tree::Leaf { start, end: stop, data_hash }) == crypto::sha256(
            crypto::sha256(data_hash) + crypto::sha256(encoding::note(stop)),
        ),
        id(Tree::Branch { left: Box::new(left), right: Box::new(right) }) == crypto::sha256(
            crypto::sha256(id(left)) + crypto::sha256(id(right)) + crypto::sha256(
                encoding::note(end(left)),
            ),
        ),
        end(Tree::Leaf { start, end: stop, data_hash }) == stop,
        end(Tree::Branch { left: Box::new(left), right: Box::new(right) }) == end(right),
{
    reveal_with_fuel(id, 2);
    reveal_with_fuel(end, 2);
}

/// Neighbours are joined two by two, in their order, and one without a partner stays as it is.
pub proof fn neighbours_are_joined(trees: Seq<Tree>, i: int)
    requires
        0 <= i < pair_up(trees).len(),
    ensures
        pair_up(trees).len() == (trees.len() + 1) / 2,
        2 * i + 1 < trees.len() ==> pair_up(trees)[i] == (Tree::Branch {
            left: Box::new(trees[2 * i]),
            right: Box::new(trees[2 * i + 1]),
        }),
        2 * i + 1 == trees.len() ==> pair_up(trees)[i] == trees[2 * i],
    decreases trees.len(),
{
    lemma_pair_up_len(trees);
    if trees.len() >= 2 && i > 0 {
        let rest = trees.skip(2);
        neighbours_are_joined(rest, i - 1);
        assert(pair_up(trees)[i] == pair_up(rest)[i - 1]);
    }
}

/// One tree alone is the whole; more than one are joined once more.
pub proof fn trees_are_joined_until_one_is_left(tree: Tree, trees: Seq<Tree>)
    requires
        trees.len() >= 2,
    ensures
        root(seq![tree]) == tree,
        root(trees) == root(pair_up(trees)),
        pair_up(trees).len() < trees.len(),
{
    lemma_pair_up_len(trees);
}

/// The path to a leaf of a branch starts with what was there, the two children and where the left
/// one ends, and goes on with the path through the child that holds the leaf.
pub proof fn paths_go_through_the_children(left: Tree, right: Tree, so_far: Seq<u8>, i: int)
    requires
        0 <= i < leaves_under(left).len() + leaves_under(right).len(),
    ensures
        ({
            let all = paths(
                Tree::Branch { left: Box::new(left), right: Box::new(right) },
                so_far,
            );
            let start = so_far + id(left) + id(right) + encoding::note(end(left));
            let first = leaves_under(left).len();
            &&& all.len() == first + leaves_under(right).len()
            &&& i < first ==> all[i].bytes == start + paths(left, Seq::empty())[i].bytes
                && all[i].offset == paths(left, Seq::empty())[i].offset
            &&& i >= first ==> all[i].bytes == start + paths(right, Seq::empty())[i - first].bytes
                && all[i].offset == paths(right, Seq::empty())[i - first].offset
        }),
{
    let start = so_far + id(left) + id(right) + encoding::note(end(left));
    reveal_with_fuel(paths, 2);
    lemma_paths_extend(left, start);
    lemma_paths_extend(right, start);
    lemma_offsets(left, start, Seq::empty());
    lemma_offsets(right, start, Seq::empty());
}

proof fn lemma_offsets(tree: Tree, one: Seq<u8>, other: Seq<u8>)
    ensures
        paths(tree, one).len() == paths(tree, other).len(),
        forall|i: int|
            0 <= i < paths(tree, one).len() ==> #[trigger] paths(tree, one)[i].offset == paths(
                tree,
                other,
            )[i].offset,
    decreases tree,
{
    if let Tree::Branch { left, right } = tree {
        lemma_offsets(
            *left,
            one + id(*left) + id(*right) + encoding::note(end(*left)),
            other + id(*left) + id(*right) + encoding::note(end(*left)),
        );
        lemma_offsets(
            *right,
            one + id(*left) + id(*right) + encoding::note(end(*left)),
            other + id(*left) + id(*right) + encoding::note(end(*left)),
        );
    }
}

/// The path to a single leaf is the hash of its bytes and where they end, and its offset is that
/// of their last byte.
pub proof fn the_path_to_a_leaf_ends_there(
    start: nat,
    stop: nat,
    data_hash: Seq<u8>,
    so_far: Seq<u8>,
)
    ensures
        paths(Tree::Leaf { start, end: stop, data_hash }, so_far) == seq![
            Path { offset: stop - 1, bytes: so_far + data_hash + encoding::note(stop) },
        ],
{
}

/// A node holds what its tree is known by, and where its bytes lie: a leaf's from its start to its
/// end, a branch's from the end of the left child to the end of the right one.
pub proof fn nodes_hold_ids_and_ranges(tree: Tree)
    ensures
        node_of(tree).id == id(tree),
        node_of(tree).max_byte_range == end(tree),
        match tree {
            Tree::Leaf { start, data_hash, .. } => node_of(tree).min_byte_range == start
                && node_of(tree).shape == (ShapeFields::Leaf { data_hash }),
            Tree::Branch { left, right } => node_of(tree).min_byte_range == end(*left) && node_of(
                tree,
            ).shape == (ShapeFields::Branch {
                left: Box::new(node_of(*left)),
                right: Box::new(node_of(*right)),
            }),
        },
{
    reveal_with_fuel(node_of, 2);
    reveal_with_fuel(end, 2);
}

/// Every field of a node and of a path counts.
pub proof fn every_field_of_a_node_counts(node: Node, path: Proof)
    ensures
        node@.id == node.id@,
        node@.min_byte_range == node.min_byte_range,
        node@.max_byte_range == node.max_byte_range,
        match node.shape {
            Shape::Leaf { data_hash } => node@.shape == (ShapeFields::Leaf {
                data_hash: data_hash@,
            }),
            Shape::Branch { left, right } => node@.shape == (ShapeFields::Branch {
                left: Box::new(left@),
                right: Box::new(right@),
            }),
        },
        path@.offset == path.offset,
        path@.bytes == path.proof@,
{
    reveal_with_fuel(Node::fields, 2);
}

} // verus!
