//! A balanced tree with strings at its leaves.

use crate::interval::Interval;
use crate::leaf::{
    find_leaf_split_for_bulk, leaf_split, lemma_leaf_split, lemma_leaf_split_lengths,
    lemma_leaf_split_unique, merge_minsplit, str_slice, Leaf, MAX_LEAF, MIN_LEAF,
};
use crate::leaves::{
    builder_wf, built_leaves, bulk_pieces, clamp, cut_leaves, joined_leaves, leaf_index, leaf_start,
    leaves_wf, lemma_bulk_step, lemma_cut_all, lemma_cut_clamp, lemma_cut_concat, lemma_cut_none,
    lemma_cut_one, lemma_flatten_valid, lemma_joined_inner, lemma_leaf_ends, lemma_leaf_index_is,
    lemma_pushed_concat, lemma_pushed_one, lemma_pushed_rope, merged_leaves, pushed_leaves,
    pushed_pieces,
};
use crate::metric::{Metric, RopeInfo};
use crate::text::{
    is_boundary, lemma_boundary_concat, lemma_count_bounded, lemma_count_concat,
    lemma_decode_concat, lemma_is_char_boundary, lemma_start_is_boundary, newlines, NEWLINE,
};
use std::sync::Arc;
use vstd::prelude::*;
use vstd::seq_lib::*;
use vstd::string::*;
use vstd::utf8::*;

verus! {

/// A node with siblings has at least this many children.
pub const MIN_CHILDREN: usize = 4;

/// A node has at most this many children.
pub const MAX_CHILDREN: usize = 8;

/// A node of the tree, shared between all the trees that hold it.
pub struct Node(Arc<NodeBody>);

struct NodeBody {
    height: usize,
    len: usize,
    info: RopeInfo,
    val: NodeVal,
}

enum NodeVal {
    Leaf(String),
    Internal(Vec<Node>),
}

/// `Arc::clone` hands out another pointer to the same value.
#[verifier::external_body]
fn share(body: &Arc<NodeBody>) -> (shared: Arc<NodeBody>)
    ensures
        shared == *body,
{
    body.clone()
}

/// The leaves of a row of nodes, from left to right.
pub closed spec fn row_leaves(nodes: Seq<Node>) -> Seq<Seq<u8>>
    decreases nodes,
{
    if nodes.len() == 0 {
        Seq::empty()
    } else {
        row_leaves(nodes.drop_last()) + nodes.last().leaves()
    }
}

/// The text of a row of nodes.
spec fn row_bytes(nodes: Seq<Node>) -> Seq<u8> {
    row_leaves(nodes).flatten()
}

/// A row of nodes that may be the children of one node of height `height`.
spec fn row_wf(nodes: Seq<Node>, height: int) -> bool {
    forall|i: int|
        0 <= i < nodes.len() ==> {
            &&& (#[trigger] nodes[i]).wf()
            &&& nodes[i].ok()
            &&& nodes[i].0.height == height - 1
        }
}

impl View for Node {
    type V = Seq<char>;

    /// The text of the rope.
    open spec fn view(&self) -> Seq<char> {
        decode_utf8(self.bytes())
    }
}

impl Node {
    /// The leaves of the rope, from left to right, as UTF-8 code units.
    pub closed spec fn leaves(self) -> Seq<Seq<u8>>
        decreases self,
    {
        match self.0.val {
            NodeVal::Leaf(s) => seq![s.utf8()],
            NodeVal::Internal(nodes) => row_leaves(nodes@),
        }
    }

    /// The UTF-8 code units of the text of the rope.
    pub open spec fn bytes(self) -> Seq<u8> {
        self.leaves().flatten()
    }

    /// Long enough to have siblings.
    spec fn ok(self) -> bool {
        match self.0.val {
            NodeVal::Leaf(s) => s.utf8().len() >= MIN_LEAF,
            NodeVal::Internal(nodes) => nodes@.len() >= MIN_CHILDREN,
        }
    }

    /// The tree is balanced, its nodes and leaves have the lengths that they may
    /// have, and every node knows the length and the newlines of its text.
    #[verifier::type_invariant]
    pub closed spec fn wf(self) -> bool
        decreases self,
    {
        &&& self.0.len == self.bytes().len()
        &&& self.0.info@ == newlines(self.bytes())
        &&& match self.0.val {
            NodeVal::Leaf(s) => self.0.height == 0 && s.utf8().len() <= MAX_LEAF,
            NodeVal::Internal(nodes) => {
                &&& self.0.height > 0
                &&& 2 <= nodes@.len() <= MAX_CHILDREN
                &&& forall|i: int|
                    0 <= i < nodes@.len() ==> {
                        &&& (#[trigger] nodes@[i]).wf()
                        &&& nodes@[i].ok()
                        &&& nodes@[i].0.height == self.0.height - 1
                    }
            },
        }
    }
}

// Facts about rows and leaves

proof fn lemma_row_concat(a: Seq<Node>, b: Seq<Node>)
    ensures
        row_leaves(a + b) == row_leaves(a) + row_leaves(b),
        row_bytes(a + b) == row_bytes(a) + row_bytes(b),
    decreases b.len(),
{
    if b.len() == 0 {
        assert(a + b =~= a);
        assert(row_leaves(a) + row_leaves(b) =~= row_leaves(a));
    } else {
        lemma_row_concat(a, b.drop_last());
        assert((a + b).drop_last() =~= a + b.drop_last());
        assert(row_leaves(a + b) =~= row_leaves(a) + row_leaves(b));
    }
    lemma_flatten_concat(row_leaves(a), row_leaves(b));
}

proof fn lemma_row_one(n: Node)
    ensures
        row_leaves(seq![n]) == n.leaves(),
        row_bytes(seq![n]) == n.bytes(),
{
    let row = seq![n];
    assert(row.drop_last() =~= Seq::empty());
    assert(row_leaves(row.drop_last()) + n.leaves() =~= n.leaves());
}

proof fn lemma_row_two(a: Node, b: Node)
    ensures
        row_leaves(seq![a, b]) == a.leaves() + b.leaves(),
        row_bytes(seq![a, b]) == a.bytes() + b.bytes(),
{
    assert(seq![a, b] =~= seq![a] + seq![b]);
    lemma_row_concat(seq![a], seq![b]);
    lemma_row_one(a);
    lemma_row_one(b);
}

proof fn lemma_row_push(nodes: Seq<Node>, n: Node)
    ensures
        row_leaves(nodes.push(n)) == row_leaves(nodes) + n.leaves(),
        row_bytes(nodes.push(n)) == row_bytes(nodes) + n.bytes(),
{
    assert(nodes.push(n).drop_last() =~= nodes);
    lemma_flatten_concat(row_leaves(nodes), n.leaves());
}

/// The text of a row around its child number `i`.
proof fn lemma_row_split(nodes: Seq<Node>, i: int)
    requires
        0 <= i < nodes.len(),
    ensures
        row_bytes(nodes) == row_bytes(nodes.take(i)) + nodes[i].bytes() + row_bytes(
            nodes.skip(i + 1),
        ),
        row_bytes(nodes.take(i + 1)) == row_bytes(nodes.take(i)) + nodes[i].bytes(),
        row_leaves(nodes) == row_leaves(nodes.take(i)) + nodes[i].leaves() + row_leaves(
            nodes.skip(i + 1),
        ),
        row_leaves(nodes.take(i + 1)) == row_leaves(nodes.take(i)) + nodes[i].leaves(),
{
    assert(nodes.take(i + 1) =~= nodes.take(i).push(nodes[i]));
    lemma_row_push(nodes.take(i), nodes[i]);
    assert(nodes =~= nodes.take(i + 1) + nodes.skip(i + 1));
    lemma_row_concat(nodes.take(i + 1), nodes.skip(i + 1));
}

proof fn lemma_leaf_bytes(n: Node)
    requires
        n.0.val is Leaf,
    ensures
        n.bytes() == n.0.val->Leaf_0.utf8(),
{
    n.leaves().lemma_flatten_one_element();
}

/// A rope has a leaf, its leaves are valid texts within the limits, and only a
/// rope with a single leaf may have a short one.
pub proof fn lemma_leaves_wf(n: Node)
    requires
        n.wf(),
    ensures
        leaves_wf(n.leaves()),
{
    lemma_leaves(n);
}

proof fn lemma_leaves(n: Node)
    requires
        n.wf(),
    ensures
        leaves_wf(n.leaves()),
        n.0.height > 0 ==> n.leaves().len() > 1,
        n.ok() ==> forall|k: int|
            0 <= k < n.leaves().len() ==> MIN_LEAF <= (#[trigger] n.leaves()[k]).len(),
    decreases n, 1nat,
{
    match n.0.val {
        NodeVal::Leaf(s) => {
            encode_utf8_valid_utf8(s@);
        },
        NodeVal::Internal(nodes) => {
            assert(decreases_to!(n => nodes@));
            lemma_row_leaves(nodes@, n.0.height as int);
        },
    }
}

proof fn lemma_row_leaves(nodes: Seq<Node>, height: int)
    requires
        row_wf(nodes, height),
    ensures
        row_leaves(nodes).len() >= nodes.len(),
        forall|k: int|
            0 <= k < row_leaves(nodes).len() ==> {
                &&& valid_utf8(#[trigger] row_leaves(nodes)[k])
                &&& MIN_LEAF <= row_leaves(nodes)[k].len() <= MAX_LEAF
            },
    decreases nodes, 0nat,
{
    if nodes.len() > 0 {
        let front = nodes.drop_last();
        let last = nodes.last();
        assert forall|i: int| 0 <= i < front.len() implies (#[trigger] front[i]).wf()
            && front[i].ok() && front[i].0.height == height - 1 by {
            assert(front[i] == nodes[i]);
        }
        lemma_row_leaves(front, height);
        assert(last == nodes[nodes.len() - 1]);
        lemma_leaves(last);
        assert forall|k: int| 0 <= k < row_leaves(nodes).len() implies valid_utf8(
            #[trigger] row_leaves(nodes)[k],
        ) && MIN_LEAF <= row_leaves(nodes)[k].len() <= MAX_LEAF by {
            let split = row_leaves(front).len();
            if k < split {
                assert(row_leaves(nodes)[k] == row_leaves(front)[k]);
            } else {
                assert(row_leaves(nodes)[k] == last.leaves()[k - split]);
            }
        }
    }
}

/// The text of a rope is valid, and encodes what the rope shows.
pub proof fn lemma_bytes_valid(n: Node)
    requires
        n.wf(),
    ensures
        valid_utf8(n.bytes()),
        encode_utf8(n@) == n.bytes(),
        n.bytes().len() <= usize::MAX,
{
    lemma_leaves(n);
    lemma_flatten_valid(n.leaves());
    decode_utf8_encode_utf8(n.bytes());
}

proof fn lemma_row_valid(nodes: Seq<Node>, height: int)
    requires
        row_wf(nodes, height),
    ensures
        valid_utf8(row_bytes(nodes)),
{
    lemma_row_leaves(nodes, height);
    lemma_flatten_valid(row_leaves(nodes));
}

// Building and joining

impl Clone for Node {
    fn clone(&self) -> (copy: Node)
        ensures
            copy == *self,
    {
        proof {
            use_type_invariant(self);
        }
        Node(share(&self.0))
    }
}

impl Node {
    /// A rope with one leaf.
    pub fn from_leaf(s: String) -> (n: Node)
        requires
            s.utf8().len() <= MAX_LEAF,
        ensures
            n.leaves() == seq![s.utf8()],
            n.bytes() == s.utf8(),
    {
        Node::new_leaf(s)
    }

    fn new_leaf(s: String) -> (n: Node)
        requires
            s.utf8().len() <= MAX_LEAF,
        ensures
            n.wf(),
            n.leaves() == seq![s.utf8()],
            n.bytes() == s.utf8(),
            n.0.height == 0,
            n.ok() == (s.utf8().len() >= MIN_LEAF),
    {
        let len: usize = Leaf::len(&s);
        let info = RopeInfo::compute_info(&s);
        proof {
            seq![s.utf8()].lemma_flatten_one_element();
            assert(seq![s.utf8()].flatten() == s.utf8());
        }
        Node(Arc::new(NodeBody { height: 0, len, info, val: NodeVal::Leaf(s) }))
    }

    /// A node over a row of nodes of one height.
    fn from_nodes(nodes: Vec<Node>) -> (n: Node)
        requires
            2 <= nodes@.len() <= MAX_CHILDREN,
            nodes@[0].0.height < usize::MAX,
            row_wf(nodes@, nodes@[0].0.height + 1),
            row_bytes(nodes@).len() <= usize::MAX,
        ensures
            n.wf(),
            n.leaves() == row_leaves(nodes@),
            n.bytes() == row_bytes(nodes@),
            n.0.height == nodes@[0].0.height + 1,
            n.0.val == NodeVal::Internal(nodes),
    {
        let height: usize = nodes[0].0.height + 1;
        let mut len: usize = 0;
        let mut info = RopeInfo::identity();
        let mut i: usize = 0;
        assert(nodes@.take(0).len() == 0);
        while i < nodes.len()
            invariant
                i <= nodes@.len(),
                row_wf(nodes@, height as int),
                row_bytes(nodes@).len() <= usize::MAX,
                len == row_bytes(nodes@.take(i as int)).len(),
                info@ == newlines(row_bytes(nodes@.take(i as int))),
            decreases nodes@.len() - i,
        {
            proof {
                let child = nodes@[i as int];
                assert(child.wf());
                lemma_row_split(nodes@, i as int);
                let before = row_bytes(nodes@.take(i as int));
                lemma_count_concat(before, child.bytes(), NEWLINE);
                lemma_count_bounded(before + child.bytes(), NEWLINE);
            }
            len = len + nodes[i].0.len;
            info.accumulate(&nodes[i].0.info);
            i = i + 1;
        }
        assert(nodes@.take(i as int) =~= nodes@);
        Node(Arc::new(NodeBody { height, len, info, val: NodeVal::Internal(nodes) }))
    }

    /// Whether the node is long enough to have siblings.
    fn is_ok_child(&self) -> (ok: bool)
        ensures
            ok == self.ok(),
    {
        match &self.0.val {
            NodeVal::Leaf(s) => s.is_ok_child(),
            NodeVal::Internal(nodes) => nodes.len() >= MIN_CHILDREN,
        }
    }

    /// The children of a node that has some.
    fn get_children(&self) -> (nodes: &Vec<Node>)
        requires
            self.wf(),
            self.0.height > 0,
        ensures
            self.0.val == NodeVal::Internal(*nodes),
            row_wf(nodes@, self.0.height as int),
            2 <= nodes@.len() <= MAX_CHILDREN,
            self.leaves() == row_leaves(nodes@),
            self.bytes() == row_bytes(nodes@),
            self.ok() == (nodes@.len() >= MIN_CHILDREN),
    {
        match &self.0.val {
            NodeVal::Internal(nodes) => nodes,
            NodeVal::Leaf(_) => {
                assert(false);
                vstd::pervasive::unreached()
            },
        }
    }

    /// Joins a row of nodes under one node, or under two where they are too many.
    fn merge_nodes(nodes: Vec<Node>) -> (n: Node)
        requires
            2 <= nodes@.len() <= 2 * MAX_CHILDREN,
            nodes@[0].0.height + 2 <= usize::MAX,
            row_wf(nodes@, nodes@[0].0.height + 1),
            row_bytes(nodes@).len() <= usize::MAX,
        ensures
            n.wf(),
            n.leaves() == row_leaves(nodes@),
            n.bytes() == row_bytes(nodes@),
            nodes@.len() <= MAX_CHILDREN ==> n.0.height == nodes@[0].0.height + 1 && n.ok() == (
            nodes@.len() >= MIN_CHILDREN),
            nodes@.len() > MAX_CHILDREN ==> n.0.height == nodes@[0].0.height + 2,
    {
        let n_children: usize = nodes.len();
        if n_children <= MAX_CHILDREN {
            Node::from_nodes(nodes)
        } else {
            let ghost all = nodes@;
            // This leans left.
            let rest: usize = n_children - MIN_CHILDREN;
            let splitpoint: usize = if rest < MAX_CHILDREN {
                rest
            } else {
                MAX_CHILDREN
            };
            let mut left = nodes;
            let right = left.split_off(splitpoint);
            proof {
                assert(left@ + right@ =~= all);
                lemma_row_concat(left@, right@);
                let h = all[0].0.height + 1;
                assert forall|i: int| 0 <= i < left@.len() implies (#[trigger] left@[i]).wf()
                    && left@[i].ok() && left@[i].0.height == h - 1 by {
                    assert(left@[i] == all[i]);
                }
                assert forall|i: int| 0 <= i < right@.len() implies (#[trigger] right@[i]).wf()
                    && right@[i].ok() && right@[i].0.height == h - 1 by {
                    assert(right@[i] == all[i + splitpoint]);
                }
            }
            let left_node = Node::from_nodes(left);
            let right_node = Node::from_nodes(right);
            proof {
                lemma_row_two(left_node, right_node);
            }
            Node::from_nodes(vec![left_node, right_node])
        }
    }

    /// Joins two leaves into one, or into two where one would be too long.
    fn merge_leaves(rope1: Node, rope2: Node) -> (n: Node)
        requires
            rope1.wf(),
            rope2.wf(),
            rope1.0.height == 0,
            rope2.0.height == 0,
        ensures
            n.wf(),
            n.leaves() == joined_leaves(rope1.leaves(), rope2.leaves()),
            n.bytes() == rope1.bytes() + rope2.bytes(),
            n.0.height <= 1,
            n.0.height == 0 && (rope1.ok() || rope2.ok()) ==> n.ok(),
    {
        proof {
            lemma_leaf_bytes(rope1);
            lemma_leaf_bytes(rope2);
            lemma_row_two(rope1, rope2);
        }
        if rope1.is_ok_child() && rope2.is_ok_child() {
            return Node::from_nodes(vec![rope1, rope2]);
        }
        let ghost joined = joined_leaves(rope1.leaves(), rope2.leaves());
        match (&rope1.0.val, &rope2.0.val) {
            (NodeVal::Leaf(leaf1), NodeVal::Leaf(leaf2)) => {
                let mut merged = leaf1.clone();
                let ghost all = leaf1.utf8() + leaf2.utf8();
                let iv = Interval::new(0, Leaf::len(leaf2));
                proof {
                    encode_utf8_valid_utf8(leaf1@);
                    encode_utf8_valid_utf8(leaf2@);
                    lemma_start_is_boundary(leaf2.utf8());
                    assert(leaf2.utf8().subrange(0, leaf2.utf8().len() as int) =~= leaf2.utf8());
                    valid_utf8_concat(leaf1.utf8(), leaf2.utf8());
                    assert(seq![leaf1.utf8()].drop_last() =~= Seq::empty());
                    assert(seq![leaf2.utf8()].drop_first() =~= Seq::empty());
                    assert(joined =~= merged_leaves(leaf1.utf8(), leaf2.utf8()));
                }
                match merged.push_maybe_split(leaf2, iv) {
                    None => Node::new_leaf(merged),
                    Some(rest) => {
                        proof {
                            let at = merged.utf8().len() as int;
                            let minsplit = merge_minsplit(all.len() as int);
                            lemma_leaf_split_lengths(all, minsplit, at);
                            lemma_leaf_split(all, minsplit);
                            lemma_leaf_split_unique(all, minsplit, at, leaf_split(all, minsplit));
                            assert(merged.utf8() + rest.utf8() =~= all);
                        }
                        let left = Node::new_leaf(merged);
                        let right = Node::new_leaf(rest);
                        proof {
                            lemma_row_two(left, right);
                            assert(joined =~= left.leaves() + right.leaves());
                        }
                        Node::from_nodes(vec![left, right])
                    },
                }
            },
            _ => {
                assert(false);
                rope1
            },
        }
    }

    /// Joins two ropes.
    pub fn concat(rope1: Node, rope2: Node) -> (n: Node)
        requires
            rope1.bytes().len() + rope2.bytes().len() <= usize::MAX,
        ensures
            n.leaves() == joined_leaves(rope1.leaves(), rope2.leaves()),
            n.bytes() == rope1.bytes() + rope2.bytes(),
            n@ == rope1@ + rope2@,
    {
        proof {
            use_type_invariant(&rope1);
            use_type_invariant(&rope2);
            lemma_bytes_valid(rope1);
            lemma_bytes_valid(rope2);
            lemma_decode_concat(rope1.bytes(), rope2.bytes());
            lemma_height_bounded(rope1);
            lemma_height_bounded(rope2);
        }
        Node::join(rope1, rope2)
    }

    #[verifier::rlimit(30)]
    fn join(rope1: Node, rope2: Node) -> (n: Node)
        requires
            rope1.wf(),
            rope2.wf(),
            rope1.0.height < usize::MAX - 2,
            rope2.0.height < usize::MAX - 2,
            rope1.bytes().len() + rope2.bytes().len() <= usize::MAX,
        ensures
            n.wf(),
            n.leaves() == joined_leaves(rope1.leaves(), rope2.leaves()),
            n.bytes() == rope1.bytes() + rope2.bytes(),
            rope1.0.height <= n.0.height,
            rope2.0.height <= n.0.height,
            n.0.height <= rope1.0.height + 1 || n.0.height <= rope2.0.height + 1,
            n.0.height == rope1.0.height && rope1.ok() ==> n.ok(),
            n.0.height == rope2.0.height && rope2.ok() ==> n.ok(),
        decreases rope1.0.height + rope2.0.height,
    {
        let h1: usize = rope1.0.height;
        let h2: usize = rope2.0.height;
        proof {
            lemma_leaves(rope1);
            lemma_leaves(rope2);
        }
        if h1 < h2 {
            let children2 = rope2.get_children();
            assert(children2@.skip(0) =~= children2@);
            if h1 == h2 - 1 && rope1.is_ok_child() {
                return Node::merge_front(rope1, children2, 0, h2);
            }
            proof {
                lemma_first_child(children2@, h2 as int);
                lemma_joined_inner(
                    rope1.leaves(),
                    children2@[0].leaves(),
                    row_leaves(children2@.skip(1)),
                );
            }
            let newrope = Node::join(rope1, children2[0].clone());
            Node::merge_front(newrope, children2, 1, h2)
        } else if h1 == h2 {
            if rope1.is_ok_child() && rope2.is_ok_child() {
                proof {
                    lemma_row_two(rope1, rope2);
                }
                return Node::from_nodes(vec![rope1, rope2]);
            }
            if h1 == 0 {
                return Node::merge_leaves(rope1, rope2);
            }
            let children2 = rope2.get_children();
            assert(children2@.skip(0) =~= children2@);
            Node::merge_front(rope1, children2, 0, h2)
        } else {
            let children1 = rope1.get_children();
            let n_children: usize = children1.len();
            assert(children1@.take(n_children as int) =~= children1@);
            assert(children1@.take(n_children - 1) =~= children1@.drop_last());
            if h2 == h1 - 1 && rope2.is_ok_child() {
                return Node::merge_back(children1, n_children, rope2, h1);
            }
            proof {
                lemma_last_child(children1@, h1 as int);
                lemma_joined_inner(
                    rope2.leaves(),
                    children1@.last().leaves(),
                    row_leaves(children1@.drop_last()),
                );
            }
            let newrope = Node::join(children1[n_children - 1].clone(), rope2);
            Node::merge_back(children1, n_children - 1, newrope, h1)
        }
    }

    /// Puts a node, or its children, before the children from number `from` on of a node
    /// of height `height`.
    fn merge_front(newrope: Node, children: &Vec<Node>, from: usize, height: usize) -> (n: Node)
        requires
            newrope.wf(),
            newrope.0.height == height || newrope.0.height == height - 1 && newrope.ok(),
            0 < height < usize::MAX,
            2 <= children@.len() <= MAX_CHILDREN,
            from <= 1,
            row_wf(children@, height as int),
            newrope.bytes().len() + row_bytes(children@.skip(from as int)).len() <= usize::MAX,
        ensures
            n.wf(),
            n.leaves() == newrope.leaves() + row_leaves(children@.skip(from as int)),
            n.bytes() == newrope.bytes() + row_bytes(children@.skip(from as int)),
            height <= n.0.height <= height + 1,
            n.0.height == height && 1 + children@.len() - from >= MIN_CHILDREN ==> n.ok(),
            n.0.height == height && newrope.0.height == height && newrope.ok() ==> n.ok(),
    {
        let ghost row = children@.skip(from as int);
        let mut all: Vec<Node> = Vec::new();
        let ghost front;
        proof {
            lemma_row_one(newrope);
        }
        if newrope.0.height == height - 1 {
            proof {
                front = seq![newrope];
            }
            all.push(newrope);
        } else {
            let children1 = newrope.get_children();
            proof {
                front = children1@;
                assert(children1@.subrange(0, children1@.len() as int) =~= children1@);
            }
            push_nodes(&mut all, children1, 0, children1.len());
        }
        assert(all@ =~= front);
        push_nodes(&mut all, children, from, children.len());
        proof {
            assert(children@.subrange(from as int, children@.len() as int) =~= row);
            assert(all@ =~= front + row);
            lemma_row_concat(front, row);
            lemma_row_wf_concat(front, row, height as int);
        }
        Node::merge_nodes(all)
    }

    /// Puts a node, or its children, behind the first `to` children of a node of height
    /// `height`.
    fn merge_back(children: &Vec<Node>, to: usize, newrope: Node, height: usize) -> (n: Node)
        requires
            newrope.wf(),
            newrope.0.height == height || newrope.0.height == height - 1 && newrope.ok(),
            0 < height < usize::MAX,
            2 <= children@.len() <= MAX_CHILDREN,
            children@.len() - 1 <= to <= children@.len(),
            row_wf(children@, height as int),
            row_bytes(children@.take(to as int)).len() + newrope.bytes().len() <= usize::MAX,
        ensures
            n.wf(),
            n.leaves() == row_leaves(children@.take(to as int)) + newrope.leaves(),
            n.bytes() == row_bytes(children@.take(to as int)) + newrope.bytes(),
            height <= n.0.height <= height + 1,
            n.0.height == height && to + 1 >= MIN_CHILDREN ==> n.ok(),
    {
        let ghost row = children@.take(to as int);
        let mut all: Vec<Node> = Vec::new();
        let ghost back;
        proof {
            lemma_row_one(newrope);
            assert(children@.subrange(0, to as int) =~= row);
        }
        push_nodes(&mut all, children, 0, to);
        assert(all@ =~= row);
        if newrope.0.height == height - 1 {
            proof {
                back = seq![newrope];
            }
            all.push(newrope);
        } else {
            let children2 = newrope.get_children();
            proof {
                back = children2@;
                assert(children2@.subrange(0, children2@.len() as int) =~= children2@);
            }
            push_nodes(&mut all, children2, 0, children2.len());
        }
        proof {
            assert(all@ =~= row + back);
            lemma_row_concat(row, back);
            lemma_row_wf_concat(row, back, height as int);
        }
        Node::merge_nodes(all)
    }
}

// Reading

impl Node {
    /// The length of the text in bytes.
    pub fn len(&self) -> (len: usize)
        ensures
            len == self.bytes().len(),
    {
        proof {
            use_type_invariant(self);
        }
        self.0.len
    }

    /// The measure of the text.
    pub fn measure<M: Metric>(&self) -> (units: usize)
        ensures
            units == M::measured(self.bytes()),
    {
        proof {
            use_type_invariant(self);
        }
        M::measure(&self.0.info, self.0.len)
    }

    /// The leaf at a position, with the offset at which it starts.
    pub fn find_leaf(&self, position: usize) -> (found: (&String, usize))
        ensures
            ({
                let k = leaf_index(self.leaves(), position as int);
                &&& found.0.utf8() == self.leaves()[k]
                &&& found.1 == leaf_start(self.leaves(), k)
            }),
    {
        proof {
            use_type_invariant(self);
            lemma_leaf_ends(self.leaves());
        }
        let ghost all = self.leaves();
        let mut node: &Node = self;
        let mut offset: usize = 0;
        let ghost mut before: Seq<Seq<u8>> = Seq::empty();
        let ghost mut behind: Seq<Seq<u8>> = Seq::empty();
        assert(before + node.leaves() + behind =~= all);
        while node.0.height > 0
            invariant
                node.wf(),
                all == before + node.leaves() + behind,
                offset == before.flatten().len(),
                offset <= position,
                behind.len() > 0 ==> position < offset + node.bytes().len(),
                all.flatten().len() <= usize::MAX,
            decreases node.0.height,
        {
            let children = node.get_children();
            let ghost row = children@;
            let mut i: usize = 0;
            let ghost start = offset;
            let ghost outer = behind;
            assert(row.take(0) =~= Seq::empty());
            assert(row_bytes(row.take(0)).len() == 0);
            proof {
                lemma_flatten_concat(before + node.leaves(), outer);
                lemma_flatten_concat(before, node.leaves());
            }
            let last: usize = children.len() - 1;
            while i < last && children[i].0.len <= position - offset
                invariant
                    children@ == row,
                    last == row.len() - 1,
                    row_wf(row, node.0.height as int),
                    i < row.len(),
                    offset == start + row_bytes(row.take(i as int)).len(),
                    start + row_bytes(row).len() <= usize::MAX,
                    offset <= position,
                decreases row.len() - i,
            {
                proof {
                    lemma_row_split(row, i as int);
                    assert(row[i as int].wf());
                }
                offset = offset + children[i].0.len;
                i = i + 1;
            }
            proof {
                let at = i as int;
                lemma_row_split(row, at);
                assert(row[at].wf());
                let left = row_leaves(row.take(at));
                let right = row_leaves(row.skip(at + 1));
                lemma_flatten_concat(before, left);
                before = before + left;
                behind = right + outer;
                assert(all =~= before + row[at].leaves() + behind);
                if behind.len() > 0 && !(at + 1 < row.len()) {
                    assert(row.skip(at + 1) =~= Seq::empty());
                    assert(row_bytes(row.skip(at + 1)) =~= Seq::empty());
                    assert(outer.len() > 0);
                }
            }
            node = &children[i];
        }
        let ghost k = before.len() as int;
        match &node.0.val {
            NodeVal::Leaf(s) => {
                proof {
                    lemma_leaf_bytes(*node);
                    assert(all[k] == s.utf8());
                    assert(all.take(k) =~= before);
                    assert(all.take(k + 1) =~= before.push(s.utf8()));
                    before.lemma_flatten_push(s.utf8());
                    lemma_leaf_index_is(all, position as int, k);
                }
                (s, offset)
            },
            NodeVal::Internal(_) => {
                assert(false);
                vstd::pervasive::unreached()
            },
        }
    }

    /// Turns a number of units of one metric into units of another.
    pub fn convert_metrics<M1: Metric, M2: Metric>(&self, units: usize) -> (converted: usize)
        requires
            units <= M1::measured(self.bytes()),
            M2::convertible(self.bytes(), M1::base_offset(self.bytes(), units as nat)),
        ensures
            converted == M2::units_at(
                self.bytes(),
                M1::base_offset(self.bytes(), units as nat),
            ),
    {
        proof {
            use_type_invariant(self);
        }
        if units == 0 {
            proof {
                M1::law_base_offset(self.bytes(), 0);
                M2::law_base_offset(self.bytes(), 0);
            }
            return 0;
        }
        let mut m1: usize = units;
        let mut m2: usize = 0;
        let mut node: &Node = self;
        let ghost result = M2::units_at(self.bytes(), M1::base_offset(self.bytes(), units as nat));
        proof {
            M2::law_measured_bounded(self.bytes());
        }
        while node.0.height > 0
            invariant
                node.wf(),
                m1 <= M1::measured(node.bytes()),
                M2::convertible(node.bytes(), M1::base_offset(node.bytes(), m1 as nat)),
                result == m2 + M2::units_at(
                    node.bytes(),
                    M1::base_offset(node.bytes(), m1 as nat),
                ),
                m2 + M2::measured(node.bytes()) <= usize::MAX,
            decreases node.0.height,
        {
            let children = node.get_children();
            let ghost row = children@;
            let mut i: usize = 0;
            assert(row.skip(0) =~= row);
            proof {
                lemma_row_suffix(row, 0, node.0.height as int);
            }
            let last: usize = children.len() - 1;
            while i < last && !covers::<M1>(&children[i], m1)
                invariant
                    children@ == row,
                    last == row.len() - 1,
                    row_wf(row, node.0.height as int),
                    i < row.len(),
                    m1 <= M1::measured(row_bytes(row.skip(i as int))),
                    M2::convertible(
                        row_bytes(row.skip(i as int)),
                        M1::base_offset(row_bytes(row.skip(i as int)), m1 as nat),
                    ),
                    result == m2 + M2::units_at(
                        row_bytes(row.skip(i as int)),
                        M1::base_offset(row_bytes(row.skip(i as int)), m1 as nat),
                    ),
                    m2 + M2::measured(row_bytes(row.skip(i as int))) <= usize::MAX,
                decreases row.len() - i,
            {
                proof {
                    lemma_row_suffix(row, i as int, node.0.height as int);
                    let a = row[i as int].bytes();
                    let b = row_bytes(row.skip(i + 1));
                    M1::law_measured_concat(a, b);
                    M2::law_measured_concat(a, b);
                    M1::law_base_offset_high(a, b, m1 as nat);
                    let rest = (m1 - M1::measured(a)) as nat;
                    M1::law_base_offset(b, rest);
                    M2::law_units_concat(a, b, a.len() + M1::base_offset(b, rest));
                }
                m2 = m2 + children[i].measure::<M2>();
                m1 = m1 - children[i].measure::<M1>();
                i = i + 1;
            }
            proof {
                let at = i as int;
                lemma_row_suffix(row, at, node.0.height as int);
                assert(row[at].wf());
                let a = row[at].bytes();
                let b = row_bytes(row.skip(at + 1));
                if at + 1 < row.len() {
                    M1::law_measured_concat(a, b);
                    M2::law_measured_concat(a, b);
                    M1::law_base_offset_low(a, b, m1 as nat);
                    M1::law_base_offset(a, m1 as nat);
                    M2::law_units_concat(a, b, M1::base_offset(a, m1 as nat));
                } else {
                    assert(row.skip(at + 1) =~= Seq::empty());
                    assert(b =~= Seq::empty());
                    assert(a + b =~= a);
                }
            }
            node = &children[i];
        }
        match &node.0.val {
            NodeVal::Leaf(s) => {
                proof {
                    lemma_leaf_bytes(*node);
                    M1::law_base_offset(s.utf8(), m1 as nat);
                    M2::law_units_at_bounded(s.utf8(), M1::base_offset(s.utf8(), m1 as nat));
                }
                let base: usize = M1::to_base_units(s, m1);
                m2 + M2::from_base_units(s, base)
            },
            NodeVal::Internal(_) => {
                assert(false);
                vstd::pervasive::unreached()
            },
        }
    }

    /// Pushes the part `iv` of the text.
    pub fn push_subseq(&self, b: &mut TreeBuilder, iv: Interval)
        requires
            iv.start < iv.end ==> is_boundary(self.bytes(), iv.start as int) && is_boundary(
                self.bytes(),
                iv.end as int,
            ),
            iv.start < iv.end ==> old(b).bytes().len() + (iv.end - iv.start) <= usize::MAX,
        ensures
            final(b).leaves() == pushed_pieces(
                old(b).leaves(),
                cut_leaves(self.leaves(), iv.start as int, iv.end as int),
            ),
            iv.start < iv.end ==> final(b).bytes() == old(b).bytes() + self.bytes().subrange(
                iv.start as int,
                iv.end as int,
            ),
            iv.start >= iv.end ==> final(b).bytes() == old(b).bytes(),
    {
        proof {
            use_type_invariant(self);
        }
        b.look();
        self.push_part(b, iv)
    }

    fn push_part(&self, b: &mut TreeBuilder, iv: Interval)
        requires
            self.wf(),
            builder_wf(old(b).leaves()),
            iv.start < iv.end ==> is_boundary(self.bytes(), iv.start as int) && is_boundary(
                self.bytes(),
                iv.end as int,
            ),
            iv.start < iv.end ==> old(b).bytes().len() + (iv.end - iv.start) <= usize::MAX,
        ensures
            builder_wf(final(b).leaves()),
            final(b).leaves() == pushed_pieces(
                old(b).leaves(),
                cut_leaves(self.leaves(), iv.start as int, iv.end as int),
            ),
            iv.start < iv.end ==> final(b).bytes() == old(b).bytes() + self.bytes().subrange(
                iv.start as int,
                iv.end as int,
            ),
            iv.start >= iv.end ==> final(b).bytes() == old(b).bytes(),
        decreases self.0.height,
    {
        let ghost old_leaves = b.leaves();
        if iv.is_empty() {
            proof {
                lemma_cut_none(self.leaves(), iv.start as int, iv.end as int);
            }
            return;
        }
        if iv.start == 0 && iv.end == self.0.len {
            proof {
                assert(self.bytes().subrange(0, self.0.len as int) =~= self.bytes());
                lemma_leaves(*self);
                lemma_whole(*self);
                lemma_pushed_rope(old_leaves, self.leaves());
            }
            b.push(self.clone());
            return;
        }
        match &self.0.val {
            NodeVal::Leaf(s) => {
                proof {
                    lemma_leaf_bytes(*self);
                    lemma_cut_one(s.utf8(), iv.start as int, iv.end as int);
                    lemma_pushed_one(
                        old_leaves,
                        s.utf8().subrange(iv.start as int, iv.end as int),
                    );
                }
                b.push_leaf_slice(s, iv);
            },
            NodeVal::Internal(nodes) => {
                let ghost row = nodes@;
                let ghost text = self.bytes();
                let ghost first = b.bytes();
                let (start, end) = iv.start_end();
                let mut offset: usize = 0;
                let mut i: usize = 0;
                assert(row.take(0) =~= Seq::empty());
                assert(row_bytes(row.take(0)).len() == 0);
                assert(first + text.subrange(start as int, start as int) =~= first);
                assert(cut_leaves(row_leaves(row.take(0)), start as int, end as int)
                    =~= Seq::empty());
                while i < nodes.len()
                    invariant
                        nodes@ == row,
                        self.wf(),
                        self.0.val == NodeVal::Internal(*nodes),
                        text == row_bytes(row),
                        text == self.bytes(),
                        row_wf(row, self.0.height as int),
                        i <= row.len(),
                        offset == row_bytes(row.take(i as int)).len(),
                        start < end <= text.len(),
                        is_boundary(text, start as int),
                        is_boundary(text, end as int),
                        first.len() + (end - start) <= usize::MAX,
                        builder_wf(b.leaves()),
                        b.leaves() == pushed_pieces(
                            old_leaves,
                            cut_leaves(row_leaves(row.take(i as int)), start as int, end as int),
                        ),
                        b.bytes() == first + text.subrange(
                            start as int,
                            clamp(offset as int, start as int, end as int),
                        ),
                    decreases row.len() - i,
                {
                    let child = &nodes[i];
                    proof {
                        lemma_part_step(
                            row,
                            i as int,
                            self.0.height as int,
                            start as int,
                            end as int,
                            old_leaves,
                        );
                    }
                    let from: usize = if start <= offset {
                        0
                    } else if start - offset <= child.0.len {
                        start - offset
                    } else {
                        child.0.len
                    };
                    let to: usize = if end <= offset {
                        0
                    } else if end - offset <= child.0.len {
                        end - offset
                    } else {
                        child.0.len
                    };
                    let ghost reached = clamp(offset + child.0.len, start as int, end as int);
                    child.push_part(b, Interval::new(from, to));
                    assert(b.bytes() =~= first + text.subrange(start as int, reached));
                    offset = offset + child.0.len;
                    i = i + 1;
                }
                assert(row.take(i as int) =~= row);
            },
        }
    }
}

/// Whether the units end inside the node.
fn covers<M: Metric>(node: &Node, units: usize) -> (yes: bool)
    ensures
        yes == (units < M::measured(node.bytes()) || M::fragments() && units == M::measured(
            node.bytes(),
        )),
{
    let measure: usize = node.measure::<M>();
    units < measure || M::can_fragment() && units == measure
}

/// All of a rope that is not empty.
proof fn lemma_whole(n: Node)
    requires
        n.wf(),
        n.bytes().len() > 0,
    ensures
        cut_leaves(n.leaves(), 0, n.bytes().len() as int) == n.leaves(),
{
    let leaves = n.leaves();
    lemma_leaves(n);
    assert forall|k: int| 0 <= k < leaves.len() implies (#[trigger] leaves[k]).len() > 0 by {
        if leaves.len() == 1 {
            assert(leaves =~= seq![leaves[0]]);
            leaves.lemma_flatten_one_element();
        }
    }
    lemma_cut_all(leaves, 0, n.bytes().len() as int);
}

/// The rest of a row from child number `i` on.
proof fn lemma_row_suffix(nodes: Seq<Node>, i: int, height: int)
    requires
        0 <= i < nodes.len(),
        row_wf(nodes, height),
    ensures
        row_bytes(nodes.skip(i)) == nodes[i].bytes() + row_bytes(nodes.skip(i + 1)),
        valid_utf8(nodes[i].bytes()),
        valid_utf8(row_bytes(nodes.skip(i + 1))),
{
    assert(nodes.skip(i) =~= seq![nodes[i]] + nodes.skip(i + 1));
    lemma_row_concat(seq![nodes[i]], nodes.skip(i + 1));
    lemma_row_one(nodes[i]);
    assert(nodes[i].wf());
    lemma_bytes_valid(nodes[i]);
    let rest = nodes.skip(i + 1);
    assert forall|j: int| 0 <= j < rest.len() implies (#[trigger] rest[j]).wf() && rest[j].ok()
        && rest[j].0.height == height - 1 by {
        assert(rest[j] == nodes[i + 1 + j]);
    }
    lemma_row_valid(rest, height);
}

/// One child of a row of which a part is pushed: what part of it is pushed, and what that
/// adds.
proof fn lemma_part_step(
    row: Seq<Node>,
    i: int,
    height: int,
    start: int,
    end: int,
    leaves: Seq<Seq<u8>>,
)
    requires
        0 <= i < row.len(),
        row_wf(row, height),
        0 <= start < end <= row_bytes(row).len(),
        is_boundary(row_bytes(row), start),
        is_boundary(row_bytes(row), end),
    ensures
        ({
            let text = row_bytes(row);
            let child = row[i];
            let offset = row_bytes(row.take(i)).len();
            let len = child.bytes().len() as int;
            let from = clamp(start - offset, 0, len);
            let to = clamp(end - offset, 0, len);
            let done = clamp(offset as int, start, end);
            let next = clamp(offset + len, start, end);
            &&& child.wf()
            &&& child.0.len == len
            &&& child.0.height == height - 1
            &&& row_bytes(row.take(i + 1)).len() == offset + len <= text.len()
            &&& from < to ==> {
                &&& is_boundary(child.bytes(), from)
                &&& is_boundary(child.bytes(), to)
                &&& child.bytes().subrange(from, to) == text.subrange(done, next)
            }
            &&& from >= to ==> done == next
            &&& text.subrange(start, done) + text.subrange(done, next) == text.subrange(start, next)
            &&& pushed_pieces(leaves, cut_leaves(row_leaves(row.take(i + 1)), start, end))
                == pushed_pieces(
                pushed_pieces(leaves, cut_leaves(row_leaves(row.take(i)), start, end)),
                cut_leaves(child.leaves(), from, to),
            )
        }),
{
    let text = row_bytes(row);
    let child = row[i];
    let front = row_leaves(row.take(i));
    let offset = row_bytes(row.take(i)).len();
    let len = child.bytes().len() as int;
    let from = clamp(start - offset, 0, len);
    let to = clamp(end - offset, 0, len);
    let done = clamp(offset as int, start, end);
    let next = clamp(offset + len, start, end);
    assert(child.wf());
    lemma_row_split(row, i);
    lemma_child_boundary(row, i, height, start);
    lemma_child_boundary(row, i, height, end);
    if from < to {
        assert(child.bytes().subrange(from, to) =~= text.subrange(done, next));
    }
    assert(text.subrange(start, done) + text.subrange(done, next) =~= text.subrange(start, next));
    lemma_cut_concat(front, child.leaves(), start, end);
    lemma_cut_clamp(child.leaves(), len, start - offset, end - offset);
    lemma_pushed_concat(
        leaves,
        cut_leaves(front, start, end),
        cut_leaves(child.leaves(), from, to),
    );
}

/// A boundary of the text of a row is one of the child in which it lies.
proof fn lemma_child_boundary(nodes: Seq<Node>, i: int, height: int, offset: int)
    requires
        0 <= i < nodes.len(),
        row_wf(nodes, height),
        is_boundary(row_bytes(nodes), offset),
    ensures
        ({
            let inner = offset - row_bytes(nodes.take(i)).len();
            &&& 0 <= inner <= nodes[i].bytes().len() ==> is_boundary(nodes[i].bytes(), inner)
            &&& is_boundary(nodes[i].bytes(), 0)
            &&& is_boundary(nodes[i].bytes(), nodes[i].bytes().len() as int)
        }),
{
    lemma_row_split(nodes, i);
    lemma_row_suffix(nodes, i, height);
    let before = nodes.take(i);
    assert forall|j: int| 0 <= j < before.len() implies (#[trigger] before[j]).wf()
        && before[j].ok() && before[j].0.height == height - 1 by {
        assert(before[j] == nodes[j]);
    }
    lemma_row_valid(before, height);
    let a = row_bytes(before);
    let c = nodes[i].bytes();
    let d = row_bytes(nodes.skip(i + 1));
    valid_utf8_concat(a, c);
    lemma_boundary_concat(a + c, d, offset);
    lemma_boundary_concat(a, c, offset);
    lemma_start_is_boundary(c);
}

/// Builds a tree from pieces that are pushed one behind the other.
pub struct TreeBuilder(Option<Node>);

impl TreeBuilder {
    /// The leaves that the text pushed so far is kept in.
    pub closed spec fn leaves(self) -> Seq<Seq<u8>> {
        match self.0 {
            None => Seq::empty(),
            Some(n) => n.leaves(),
        }
    }

    /// The text of the pieces pushed so far.
    pub open spec fn bytes(self) -> Seq<u8> {
        self.leaves().flatten()
    }

    /// Does nothing, and tells that the leaves are those that a rope may have.
    fn look(&self)
        ensures
            builder_wf(self.leaves()),
    {
        match &self.0 {
            None => {},
            Some(n) => {
                proof {
                    use_type_invariant(n);
                    lemma_leaves(*n);
                }
            },
        }
    }

    /// A builder that has been given nothing.
    pub fn new() -> (b: TreeBuilder)
        ensures
            b.leaves() == Seq::<Seq<u8>>::empty(),
            b.bytes() == Seq::<u8>::empty(),
    {
        assert(Seq::<Seq<u8>>::empty().flatten() =~= Seq::empty());
        TreeBuilder(None)
    }

    /// Appends a rope.
    pub fn push(&mut self, n: Node)
        requires
            old(self).bytes().len() + n.bytes().len() <= usize::MAX,
        ensures
            leaves_wf(final(self).leaves()),
            final(self).leaves() == pushed_leaves(old(self).leaves(), n.leaves()),
            final(self).bytes() == old(self).bytes() + n.bytes(),
    {
        proof {
            use_type_invariant(&n);
            lemma_leaves(n);
        }
        match self.0.take() {
            None => {
                assert(Seq::<u8>::empty() + n.bytes() =~= n.bytes());
                self.0 = Some(n);
            },
            Some(buf) => {
                proof {
                    use_type_invariant(&buf);
                    lemma_leaves(buf);
                }
                let joined = Node::concat(buf, n);
                proof {
                    use_type_invariant(&joined);
                    lemma_leaves(joined);
                }
                self.0 = Some(joined);
            },
        }
    }

    /// Appends a leaf.
    pub fn push_leaf(&mut self, l: String)
        requires
            l.utf8().len() <= MAX_LEAF,
            old(self).bytes().len() + l.utf8().len() <= usize::MAX,
        ensures
            leaves_wf(final(self).leaves()),
            final(self).leaves() == pushed_leaves(old(self).leaves(), seq![l.utf8()]),
            final(self).bytes() == old(self).bytes() + l.utf8(),
    {
        self.push(Node::from_leaf(l));
    }

    /// Appends a part of a leaf.
    pub fn push_leaf_slice(&mut self, l: &String, iv: Interval)
        requires
            iv.start <= iv.end,
            iv.end - iv.start <= MAX_LEAF,
            is_boundary(l.utf8(), iv.start as int),
            is_boundary(l.utf8(), iv.end as int),
            old(self).bytes().len() + (iv.end - iv.start) <= usize::MAX,
        ensures
            leaves_wf(final(self).leaves()),
            final(self).leaves() == pushed_leaves(
                old(self).leaves(),
                seq![l.utf8().subrange(iv.start as int, iv.end as int)],
            ),
            final(self).bytes() == old(self).bytes() + l.utf8().subrange(
                iv.start as int,
                iv.end as int,
            ),
    {
        let part = str_slice(l.as_str(), iv.start, iv.end);
        self.push_leaf(part.to_owned());
    }

    /// Appends a string, cut into leaves where it is long.
    pub fn push_str(&mut self, s: &str)
        requires
            old(self).bytes().len() + s.spec_bytes().len() <= usize::MAX,
        ensures
            final(self).leaves() == pushed_pieces(
                old(self).leaves(),
                bulk_pieces(s.spec_bytes()),
            ),
            final(self).bytes() == old(self).bytes() + s.spec_bytes(),
    {
        proof {
            encode_utf8_valid_utf8(s@);
        }
        let ghost first = self.bytes();
        let ghost pushed = pushed_pieces(self.leaves(), bulk_pieces(s.spec_bytes()));
        let ghost text = s.spec_bytes();
        let len: usize = s.as_bytes().len();
        if len <= MAX_LEAF {
            if len != 0 {
                proof {
                    lemma_pushed_one(self.leaves(), text);
                }
                self.push_leaf(s.to_owned());
            } else {
                assert(first + text =~= first);
            }
            return;
        }
        let mut rest: &str = s;
        let ghost mut done: int = 0;
        assert(text.skip(0) =~= text);
        assert(first + text.take(0) =~= first);
        while rest.as_bytes().len() != 0
            invariant
                0 <= done <= text.len(),
                rest.spec_bytes() == text.skip(done),
                self.bytes() == first + text.take(done),
                pushed == pushed_pieces(self.leaves(), bulk_pieces(rest.spec_bytes())),
                first.len() + text.len() <= usize::MAX,
            decreases rest.spec_bytes().len(),
        {
            let len: usize = rest.as_bytes().len();
            let ghost all = rest.spec_bytes();
            proof {
                encode_utf8_valid_utf8(rest@);
                lemma_is_char_boundary(all, len as int);
            }
            let splitpoint: usize = if len > MAX_LEAF {
                find_leaf_split_for_bulk(rest)
            } else {
                len
            };
            proof {
                let at = splitpoint as int;
                if len > MAX_LEAF {
                    lemma_bulk_step(all, at);
                } else {
                    assert(all.take(at) =~= all);
                    assert(all.skip(at).len() == 0);
                }
                lemma_is_char_boundary(all, at);
                let one = seq![all.take(at)];
                assert(bulk_pieces(all) =~= one + bulk_pieces(all.skip(at)));
                lemma_pushed_concat(self.leaves(), one, bulk_pieces(all.skip(at)));
                lemma_pushed_one(self.leaves(), all.take(at));
            }
            let (head, tail) = rest.split_at(splitpoint);
            self.push_leaf(head.to_owned());
            proof {
                let next = done + splitpoint;
                assert(text.take(next) =~= text.take(done) + all.take(splitpoint as int));
                assert(head.spec_bytes() =~= all.take(splitpoint as int));
                assert(first + text.take(next) =~= first + text.take(done) + head.spec_bytes());
                assert(tail.spec_bytes() =~= text.skip(next));
                assert(tail.spec_bytes() =~= all.skip(splitpoint as int));
                done = next;
            }
            rest = tail;
        }
        assert(text.take(done) =~= text);
    }

    /// The rope of everything that was pushed.
    pub fn build(self) -> (n: Node)
        ensures
            n.leaves() == built_leaves(self.leaves()),
            n.bytes() == self.bytes(),
    {
        match self.0 {
            Some(r) => {
                proof {
                    use_type_invariant(&r);
                    lemma_leaves(r);
                }
                r
            },
            None => {
                let empty = String::new();
                assert(empty.utf8() =~= Seq::empty());
                Node::from_leaf(empty)
            },
        }
    }
}

// Parts of proofs

proof fn lemma_row_wf_concat(a: Seq<Node>, b: Seq<Node>, height: int)
    requires
        forall|i: int|
            0 <= i < a.len() ==> (#[trigger] a[i]).wf() && a[i].ok() && a[i].0.height == height - 1,
        forall|i: int|
            0 <= i < b.len() ==> (#[trigger] b[i]).wf() && b[i].ok() && b[i].0.height == height - 1,
    ensures
        row_wf(a + b, height),
{
    let all = a + b;
    assert forall|i: int| 0 <= i < all.len() implies (#[trigger] all[i]).wf() && all[i].ok()
        && all[i].0.height == height - 1 by {
        if i < a.len() {
            assert(all[i] == a[i]);
        } else {
            assert(all[i] == b[i - a.len()]);
        }
    }
}

/// A tree is less high than its text is long.
proof fn lemma_height_bounded(n: Node)
    requires
        n.wf(),
    ensures
        n.0.height > 0 ==> n.0.height * MIN_LEAF <= n.bytes().len(),
    decreases n,
{
    match n.0.val {
        NodeVal::Leaf(_) => {},
        NodeVal::Internal(nodes) => {
            let row = nodes@;
            assert(decreases_to!(n => row));
            let first = row[0];
            let second = row[1];
            assert(first.wf() && second.wf());
            assert(first.ok() && second.ok());
            lemma_height_bounded(first);
            lemma_height_bounded(second);
            lemma_row_split(row, 0);
            lemma_row_split(row, 1);
            if first.0.height == 0 {
                lemma_leaf_bytes(first);
                lemma_leaf_bytes(second);
            }
            assert(row_bytes(row).len() >= first.bytes().len() + second.bytes().len());
        },
    }
}

/// The first child of a row, and the others.
proof fn lemma_first_child(nodes: Seq<Node>, height: int)
    requires
        nodes.len() > 0,
        row_wf(nodes, height),
    ensures
        nodes[0].wf(),
        nodes[0].ok(),
        nodes[0].0.height == height - 1,
        leaves_wf(nodes[0].leaves()),
        row_leaves(nodes) == nodes[0].leaves() + row_leaves(nodes.skip(1)),
        row_bytes(nodes) == nodes[0].bytes() + row_bytes(nodes.skip(1)),
{
    assert(nodes =~= seq![nodes[0]] + nodes.skip(1));
    lemma_row_concat(seq![nodes[0]], nodes.skip(1));
    lemma_row_one(nodes[0]);
    assert(nodes[0].wf());
    lemma_leaves(nodes[0]);
}

/// The last child of a row, and the others.
proof fn lemma_last_child(nodes: Seq<Node>, height: int)
    requires
        nodes.len() > 0,
        row_wf(nodes, height),
    ensures
        nodes.last().wf(),
        nodes.last().ok(),
        nodes.last().0.height == height - 1,
        leaves_wf(nodes.last().leaves()),
        row_leaves(nodes) == row_leaves(nodes.drop_last()) + nodes.last().leaves(),
        row_bytes(nodes) == row_bytes(nodes.drop_last()) + nodes.last().bytes(),
{
    assert(nodes =~= nodes.drop_last() + seq![nodes.last()]);
    lemma_row_concat(nodes.drop_last(), seq![nodes.last()]);
    lemma_row_one(nodes.last());
    assert(nodes[nodes.len() - 1].wf());
    lemma_leaves(nodes.last());
}

/// Appends the nodes `from..to` of a row.
fn push_nodes(all: &mut Vec<Node>, nodes: &Vec<Node>, from: usize, to: usize)
    requires
        from <= to <= nodes@.len(),
    ensures
        final(all)@ == old(all)@ + nodes@.subrange(from as int, to as int),
{
    let ghost before = all@;
    let mut i: usize = from;
    while i < to
        invariant
            from <= i <= to <= nodes@.len(),
            all@ == before + nodes@.subrange(from as int, i as int),
        decreases to - i,
    {
        all.push(nodes[i].clone());
        i = i + 1;
        assert(all@ =~= before + nodes@.subrange(from as int, i as int));
    }
}

} // verus!
