//! The recursive trie: nodes, the references between them, and what they hold.

use crate::codec::{node_decoding, NodeParts, slots};
use crate::error::Fault;
use crate::limits::{fanout, lemma_span_step, reach, span, valid_bit_width};
use crate::node::wire::expand_model;
use crate::store::{Blocks, ContentId};
use vstd::prelude::*;

pub mod alike;
pub mod dense;
pub mod flush;
pub mod read;
pub mod walk;
pub mod wire;
pub mod write;

verus! {

/// What a reference denotes.
pub enum LinkModel {
    /// A subtree that is held in memory, modified and not yet stored.
    Pending(NodeModel),
    /// A stored subtree, by its content hash, with the copy of it that is held in memory.
    Cached(Seq<u8>, NodeModel),
    /// A stored subtree, by its content hash alone.
    Stored(Seq<u8>),
}

/// What a node holds: values in the slots of a leaf, references in those of a branch.
pub enum NodeModel {
    Leaf(Seq<Option<Seq<u8>>>),
    Branch(Seq<Option<LinkModel>>),
}

/// A reference from a branch to a subtree.
pub enum Link {
    /// A stored subtree: its content hash, and the subtree itself once it has been read.
    Cid { cid: ContentId, cache: Option<Box<Node>> },
    /// A subtree that was modified since it was last stored.
    Dirty(Box<Node>),
}

/// A node of the trie: a fixed number of slots, holding values at height zero and
/// references to subtrees above it.
pub enum Node {
    Link { links: Vec<Option<Link>> },
    Leaf { vals: Vec<Option<Vec<u8>>> },
}

/// What `link` denotes.
pub open spec fn link_model(link: Link) -> LinkModel
    decreases link,
{
    match link {
        Link::Cid { cid, cache: Some(node) } => LinkModel::Cached(cid@, node_model(*node)),
        Link::Cid { cid, cache: None } => LinkModel::Stored(cid@),
        Link::Dirty(node) => LinkModel::Pending(node_model(*node)),
    }
}

/// What `node` holds.
pub open spec fn node_model(node: Node) -> NodeModel
    decreases node,
{
    match node {
        Node::Leaf { vals } => NodeModel::Leaf(
            Seq::new(
                vals.len() as nat,
                |k: int|
                    match vals[k] {
                        Some(v) => Some(v@),
                        None => None,
                    },
            ),
        ),
        Node::Link { links } => NodeModel::Branch(
            Seq::new(
                links.len() as nat,
                |k: int|
                    if 0 <= k < links.len() {
                        match links[k] {
                            Some(l) => Some(link_model(l)),
                            None => None,
                        }
                    } else {
                        None
                    },
            ),
        ),
    }
}

impl View for Link {
    type V = LinkModel;

    open spec fn view(&self) -> LinkModel {
        link_model(*self)
    }
}

impl View for Node {
    type V = NodeModel;

    open spec fn view(&self) -> NodeModel {
        node_model(*self)
    }
}

/// What a slot of a branch denotes.
pub open spec fn link_slot(slot: Option<Link>) -> Option<LinkModel> {
    match slot {
        Some(l) => Some(link_model(l)),
        None => None,
    }
}

/// What a slot of a leaf holds.
pub open spec fn value_slot(slot: Option<Vec<u8>>) -> Option<Seq<u8>> {
    match slot {
        Some(v) => Some(v@),
        None => None,
    }
}

/// A branch denotes, slot by slot, what its references denote.
pub proof fn lemma_branch_model(links: Vec<Option<Link>>)
    ensures
        node_model(Node::Link { links }) == NodeModel::Branch(
            Seq::new(links.len() as nat, |k: int| link_slot(links[k])),
        ),
{
    let a = node_model(Node::Link { links })->Branch_0;
    let b = Seq::new(links.len() as nat, |k: int| link_slot(links[k]));
    assert(a =~= b);
}

/// A leaf holds, slot by slot, the bytes of its values.
pub proof fn lemma_leaf_model(vals: Vec<Option<Vec<u8>>>)
    ensures
        node_model(Node::Leaf { vals }) == NodeModel::Leaf(
            Seq::new(vals.len() as nat, |k: int| value_slot(vals[k])),
        ),
{
    let a = node_model(Node::Leaf { vals })->Leaf_0;
    let b = Seq::new(vals.len() as nat, |k: int| value_slot(vals[k]));
    assert(a =~= b);
}

/// The reference that a slot of a stored branch denotes: the stored subtree under its
/// content hash.
pub open spec fn stored_slot(slot: Option<Seq<u8>>) -> Option<LinkModel> {
    match slot {
        Some(id) => Some(LinkModel::Stored(id)),
        None => None,
    }
}

/// Whether a node has the form of a subtree of `height`: a leaf at height zero and a
/// branch above it, with one slot for each of the `2^bit_width` positions, and so on for
/// each subtree that it holds in memory. A subtree held beside its content hash has no
/// pending reference in it.
pub open spec fn shaped(node: NodeModel, bit_width: u32, height: nat) -> bool
    decreases height,
{
    match node {
        NodeModel::Leaf(vals) => height == 0 && vals.len() == fanout(bit_width),
        NodeModel::Branch(links) => height > 0 && links.len() == fanout(bit_width) && forall|
            k: int,
        |
            0 <= k < links.len() ==> match #[trigger] links[k] {
                Some(LinkModel::Pending(child)) => shaped(child, bit_width, (height - 1) as nat),
                Some(LinkModel::Cached(_, child)) => shaped(child, bit_width, (height - 1) as nat)
                    && committed(child, (height - 1) as nat),
                _ => true,
            },
    }
}

/// Whether no pending reference can be reached from a node of `height`.
pub open spec fn committed(node: NodeModel, height: nat) -> bool
    decreases height,
{
    match node {
        NodeModel::Leaf(_) => true,
        NodeModel::Branch(links) => height > 0 ==> forall|k: int|
            0 <= k < links.len() ==> match #[trigger] links[k] {
                Some(LinkModel::Pending(_)) => false,
                Some(LinkModel::Cached(_, child)) => committed(child, (height - 1) as nat),
                _ => true,
            },
    }
}

/// The subtree of `height` that the store holds under a content hash.
pub open spec fn load_model(blocks: Blocks, id: Seq<u8>, bit_width: u32, height: nat) -> Result<
    NodeModel,
    Fault,
> {
    if !blocks.dom().contains(id) {
        Err(Fault::Missing(id))
    } else {
        match node_decoding(blocks[id]) {
            Some((bmap, links, values)) => match expand_model(
                NodeParts { bmap, links, values },
                bit_width,
            ) {
                Some(node) => if shaped(node, bit_width, height) {
                    Ok(node)
                } else {
                    Err(Fault::Malformed)
                },
                None => Err(Fault::Malformed),
            },
            None => Err(Fault::Malformed),
        }
    }
}

/// The subtree of `height` that a reference denotes: the one held in memory where there
/// is one, else the one that the store holds under the content hash.
pub open spec fn resolve(link: LinkModel, blocks: Blocks, bit_width: u32, height: nat) -> Result<
    NodeModel,
    Fault,
> {
    match link {
        LinkModel::Pending(child) => Ok(child),
        LinkModel::Cached(_, child) => Ok(child),
        LinkModel::Stored(id) => load_model(blocks, id, bit_width, height),
    }
}

/// What a subtree of `height` holds at index `i`, counted from the first index of the
/// subtree: the value, or nothing; or the fault that stops the way to it.
pub open spec fn lookup(node: NodeModel, blocks: Blocks, bit_width: u32, height: nat, i: nat)
    -> Result<Option<Seq<u8>>, Fault>
    decreases height,
{
    match node {
        NodeModel::Leaf(vals) => if i < vals.len() {
            Ok(vals[i as int])
        } else {
            Ok(None)
        },
        NodeModel::Branch(links) => {
            let slot = i / span(bit_width, height);
            if height == 0 || slot >= links.len() {
                Ok(None)
            } else {
                match links[slot as int] {
                    None => Ok(None),
                    Some(link) => match resolve(link, blocks, bit_width, (height - 1) as nat) {
                        Err(fault) => Err(fault),
                        Ok(child) => lookup(
                            child,
                            blocks,
                            bit_width,
                            (height - 1) as nat,
                            i % span(bit_width, height),
                        ),
                    },
                }
            }
        },
    }
}

impl Node {
    /// Whether this node is a leaf.
    pub fn is_leaf(&self) -> (b: bool)
        ensures
            b == (self@ is Leaf),
    {
        match self {
            Node::Leaf { .. } => true,
            Node::Link { .. } => false,
        }
    }
}

/// Whether slot `k` of a node is in use.
pub open spec fn used(node: NodeModel, k: int) -> bool {
    match node {
        NodeModel::Leaf(vals) => 0 <= k < vals.len() && vals[k] is Some,
        NodeModel::Branch(links) => 0 <= k < links.len() && links[k] is Some,
    }
}

/// Whether every slot that is in use in `before` is in use in `after`, a node of the same
/// kind.
pub open spec fn keeps_slots(before: NodeModel, after: NodeModel) -> bool {
    &&& (before is Leaf) == (after is Leaf)
    &&& forall|k: int| used(before, k) ==> #[trigger] used(after, k)
}

/// Whether the same slots are in use in two nodes of the same kind.
pub open spec fn same_slots(before: NodeModel, after: NodeModel) -> bool {
    &&& (before is Leaf) == (after is Leaf)
    &&& forall|k: int| used(before, k) == #[trigger] used(after, k)
}

/// The slot of a node of `height` that index `i` falls into.
pub open spec fn slot_of(bit_width: u32, height: nat, i: nat) -> int {
    if height == 0 {
        i as int
    } else {
        i as int / span(bit_width, height) as int
    }
}

/// A vector of `2^bit_width` empty slots.
pub fn init_sized_vec<T>(bit_width: u32) -> (v: Vec<Option<T>>)
    requires
        valid_bit_width(bit_width),
    ensures
        v.len() == fanout(bit_width),
        forall|k: int| 0 <= k < v.len() ==> v[k] is None,
{
    let n = slots(bit_width);
    let mut v: Vec<Option<T>> = Vec::new();
    while v.len() < n
        invariant
            v.len() <= n,
            forall|k: int| 0 <= k < v.len() ==> v[k] is None,
        decreases n - v.len(),
    {
        v.push(None);
    }
    v
}

/// Whether every slot of a node is empty.
pub open spec fn vacant(node: NodeModel) -> bool {
    match node {
        NodeModel::Leaf(vals) => forall|k: int| 0 <= k < vals.len() ==> vals[k] is None,
        NodeModel::Branch(links) => forall|k: int| 0 <= k < links.len() ==> links[k] is None,
    }
}

/// A node with every slot empty holds nothing at any index.
pub proof fn lemma_vacant_holds_nothing(
    node: NodeModel,
    blocks: Blocks,
    bit_width: u32,
    height: nat,
    i: nat,
)
    requires
        vacant(node),
    ensures
        lookup(node, blocks, bit_width, height, i) == Ok::<Option<Seq<u8>>, Fault>(None),
{
    match node {
        NodeModel::Leaf(vals) => {
            if i < vals.len() {
                assert(vals[i as int] is None);
            }
        },
        NodeModel::Branch(links) => {
            let slot = i / span(bit_width, height);
            lemma_span_step(bit_width, height);
            vstd::arithmetic::div_mod::lemma_div_pos_is_pos(i as int, span(bit_width, height) as int);
            if slot < links.len() {
                assert(links[slot as int] is None);
            }
        },
    }
}

/// Whether two subtrees hold the same at every index but `i`.
pub open spec fn same_but_at(
    a: NodeModel,
    b: NodeModel,
    blocks: Blocks,
    bit_width: u32,
    height: nat,
    i: nat,
) -> bool {
    forall|j: nat|
        j != i ==> #[trigger] lookup(a, blocks, bit_width, height, j) == lookup(
            b,
            blocks,
            bit_width,
            height,
            j,
        )
}

/// Whether two subtrees hold the same at every index.
pub open spec fn same_content(
    a: NodeModel,
    b: NodeModel,
    blocks: Blocks,
    bit_width: u32,
    height: nat,
) -> bool {
    forall|j: nat| #[trigger]
        lookup(a, blocks, bit_width, height, j) == lookup(b, blocks, bit_width, height, j)
}

impl Node {
    /// A node of `height` with every slot empty.
    pub fn vacant(bit_width: u32, height: u32) -> (node: Node)
        requires
            valid_bit_width(bit_width),
        ensures
            shaped(node@, bit_width, height as nat),
            vacant(node@),
    {
        if height == 0 {
            let vals: Vec<Option<Vec<u8>>> = init_sized_vec(bit_width);
            proof {
                lemma_leaf_model(vals);
            }
            Node::Leaf { vals }
        } else {
            let links: Vec<Option<Link>> = init_sized_vec(bit_width);
            proof {
                lemma_branch_model(links);
            }
            Node::Link { links }
        }
    }
}

/// A node has every slot empty exactly when none of its slots is in use.
pub proof fn lemma_vacancy(node: NodeModel)
    ensures
        vacant(node) <==> forall|k: int| !used(node, k),
{
    match node {
        NodeModel::Leaf(vals) => {
            if forall|k: int| !used(node, k) {
                assert forall|k: int| 0 <= k < vals.len() implies vals[k] is None by {
                    assert(!used(node, k));
                }
            }
        },
        NodeModel::Branch(links) => {
            if forall|k: int| !used(node, k) {
                assert forall|k: int| 0 <= k < links.len() implies links[k] is None by {
                    assert(!used(node, k));
                }
            }
        },
    }
}

impl Node {
    /// Whether every slot of this node is empty.
    #[verifier::loop_isolation(false)]
    pub fn is_empty(&self) -> (b: bool)
        ensures
            b == vacant(self@),
    {
        match self {
            Node::Leaf { vals } => {
                proof {
                    lemma_leaf_model(*vals);
                }
                let mut k: usize = 0;
                while k < vals.len()
                    invariant
                        k <= vals.len(),
                        forall|j: int| 0 <= j < k ==> vals[j] is None,
                    decreases vals.len() - k,
                {
                    if vals[k].is_some() {
                        assert(self@->Leaf_0[k as int] is Some);
                        return false;
                    }
                    k += 1;
                }
                true
            },
            Node::Link { links } => {
                proof {
                    lemma_branch_model(*links);
                }
                let mut k: usize = 0;
                while k < links.len()
                    invariant
                        k <= links.len(),
                        forall|j: int| 0 <= j < k ==> links[j] is None,
                    decreases links.len() - k,
                {
                    if links[k].is_some() {
                        assert(self@->Branch_0[k as int] is Some);
                        return false;
                    }
                    k += 1;
                }
                true
            },
        }
    }
}

/// Whether a node is a branch with its first slot in use and every other slot empty: the
/// subtree in the first slot can then take the place of the node.
pub open spec fn collapsible(node: NodeModel) -> bool {
    match node {
        NodeModel::Leaf(_) => false,
        NodeModel::Branch(links) => links.len() > 0 && links[0] is Some && forall|k: int|
            1 <= k < links.len() ==> #[trigger] links[k] is None,
    }
}

impl Node {
    /// Whether this node is a branch with its first slot in use and every other slot
    /// empty.
    #[verifier::loop_isolation(false)]
    pub fn can_collapse(&self) -> (b: bool)
        ensures
            b == collapsible(self@),
    {
        match self {
            Node::Leaf { .. } => false,
            Node::Link { links } => {
                proof {
                    lemma_branch_model(*links);
                }
                if links.len() == 0 || links[0].is_none() {
                    return false;
                }
                let mut k: usize = 1;
                while k < links.len()
                    invariant
                        1 <= k <= links.len(),
                        forall|j: int| 1 <= j < k ==> links[j] is None,
                    decreases links.len() - k,
                {
                    if links[k].is_some() {
                        assert(self@->Branch_0[k as int] is Some);
                        return false;
                    }
                    k += 1;
                }
                true
            },
        }
    }
}

/// What a branch holds at an index of one of its slots is what the subtree in that slot
/// holds at the place of the index within the slot.
pub proof fn lemma_lookup_in_slot(
    links: Seq<Option<LinkModel>>,
    blocks: Blocks,
    bit_width: u32,
    height: nat,
    slot: nat,
    place: nat,
)
    requires
        height > 0,
        slot < links.len(),
        place < span(bit_width, height),
    ensures
        lookup(
            NodeModel::Branch(links),
            blocks,
            bit_width,
            height,
            slot * span(bit_width, height) + place,
        ) == match links[slot as int] {
            None => Ok::<Option<Seq<u8>>, Fault>(None),
            Some(link) => match resolve(link, blocks, bit_width, (height - 1) as nat) {
                Err(fault) => Err(fault),
                Ok(child) => lookup(child, blocks, bit_width, (height - 1) as nat, place),
            },
        },
{
    let sp = span(bit_width, height) as int;
    let i = slot * sp + place;
    vstd::arithmetic::div_mod::lemma_fundamental_div_mod_converse(
        i,
        sp,
        slot as int,
        place as int,
    );
}

/// Past the indices that a subtree addresses it holds nothing.
pub proof fn lemma_beyond_reach(node: NodeModel, blocks: Blocks, bit_width: u32, height: nat, i: nat)
    requires
        shaped(node, bit_width, height),
        i >= reach(bit_width, height),
    ensures
        lookup(node, blocks, bit_width, height, i) == Ok::<Option<Seq<u8>>, Fault>(None),
{
    lemma_span_step(bit_width, height);
    match node {
        NodeModel::Leaf(vals) => {
            assert((bit_width as nat) * 1 == bit_width as nat);
        },
        NodeModel::Branch(links) => {
            let s = span(bit_width, height) as int;
            let f = links.len() as int;
            assert((i as int) / s >= f) by (nonlinear_arith)
                requires
                    i >= s * f,
                    s > 0,
            ;
        },
    }
}

/// A branch with a slot in use that cannot give way to its first subtree has a slot in
/// use after the first.
pub proof fn lemma_high_slot(node: NodeModel)
    requires
        node is Branch,
        !vacant(node),
        !collapsible(node),
    ensures
        exists|k: int| k >= 1 && used(node, k),
{
    lemma_vacancy(node);
    let k = choose|k: int| used(node, k);
    if k == 0 {
        let links = node->Branch_0;
        let m = choose|m: int| 1 <= m < links.len() && !(#[trigger] links[m] is None);
        assert(used(node, m));
    }
}

/// Nodes with the same slots in use are empty together and can give way to their first
/// subtree together.
pub proof fn lemma_same_slots(before: NodeModel, after: NodeModel)
    requires
        same_slots(before, after),
    ensures
        vacant(before) == vacant(after),
        collapsible(before) == collapsible(after),
{
    lemma_vacancy(before);
    lemma_vacancy(after);
    assert forall|k: int| used(before, k) == used(after, k) by {
        assert(used(before, k) == used(after, k));
    }
    match (before, after) {
        (NodeModel::Branch(a), NodeModel::Branch(b)) => {
            assert(used(before, 0) == used(after, 0));
            if collapsible(before) {
                assert forall|k: int| 1 <= k < b.len() implies #[trigger] b[k] is None by {
                    assert(used(before, k) == used(after, k));
                    if k < a.len() {
                        assert(a[k] is None);
                    }
                }
            }
            if collapsible(after) {
                assert forall|k: int| 1 <= k < a.len() implies #[trigger] a[k] is None by {
                    assert(used(before, k) == used(after, k));
                    if k < b.len() {
                        assert(b[k] is None);
                    }
                }
            }
        },
        _ => {},
    }
}

} // verus!
