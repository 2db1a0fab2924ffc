use crate::pattern::Pattern;
use crate::classify::{ignored, misses_filter, is_filtered_out_due_to_regex, is_filtered_out_due_to_invert_regex};
use crate::pattern::matches_any;
use vstd::prelude::*;

verus! {

/// One entry of a size-annotated tree.
///
/// `size` is the entry's own contribution plus the sizes of its children;
/// `inode_device` is the (device, inode) pair, kept only until hard links
/// have been collapsed; `depth` is 0 at the root and grows by one per level.
#[derive(Debug, PartialEq, Eq)]
pub struct Node {
    pub name: String,
    pub size: u64,
    pub children: Vec<Node>,
    pub inode_device: Option<(u64, u64)>,
    pub depth: usize,
}

/// Sum of the sizes of a sequence of nodes, as an unbounded integer.
pub open spec fn sizes_sum(s: Seq<Node>) -> int
    decreases s.len(),
{
    if s.len() == 0 {
        0
    } else {
        sizes_sum(s.drop_last()) + s.last().size
    }
}

/// What a node adds to its size by itself, apart from its children.
pub open spec fn own_size(n: Node) -> int {
    n.size - sizes_sum(n.children@)
}

/// Every node of the tree is at least as large as its children together.
pub open spec fn aggregated(n: Node) -> bool
    decreases n,
{
    &&& sizes_sum(n.children@) <= n.size
    &&& forall|i: int| #![trigger n.children@[i]] 0 <= i < n.children@.len() ==> aggregated(n.children@[i])
}


/// Each child is one level deeper than its parent, all the way down.
pub open spec fn depths_consistent(n: Node) -> bool
    decreases n,
{
    forall|i: int|
        #![trigger n.children@[i]]
        0 <= i < n.children@.len() ==> {
            &&& n.children@[i].depth == n.depth + 1
            &&& depths_consistent(n.children@[i])
        }
}

/// No node of the tree bears an ignored path.
pub open spec fn avoids(n: Node, ignore: Seq<String>) -> bool
    decreases n,
{
    &&& !ignored(ignore, n.name@)
    &&& forall|i: int| #![trigger n.children@[i]] 0 <= i < n.children@.len() ==> avoids(n.children@[i], ignore)
}

/// No node below the root bears an ignored path.
pub open spec fn avoids_below(n: Node, ignore: Seq<String>) -> bool {
    forall|i: int| #![trigger n.children@[i]] 0 <= i < n.children@.len() ==> avoids(n.children@[i], ignore)
}

/// The projection is cut at this node: a bound is given and the node lies
/// at or below it.
pub open spec fn cut_at(t: Node, max_depth: Option<usize>) -> bool {
    max_depth matches Some(d) && t.depth >= d
}

/// `r` is a copy of `t` in which every node at depth `max_depth` or deeper
/// has lost its children but kept its size. With no bound, `r` is a full
/// copy.
pub open spec fn truncated_copy(r: Node, t: Node, max_depth: Option<usize>) -> bool
    decreases t,
{
    &&& r.name@ == t.name@
    &&& r.size == t.size
    &&& r.depth == t.depth
    &&& r.inode_device == t.inode_device
    &&& if cut_at(t, max_depth) {
        r.children@.len() == 0
    } else {
        &&& r.children@.len() == t.children@.len()
        &&& forall|i: int|
            #![trigger r.children@[i]]
            0 <= i < r.children@.len() ==> truncated_copy(r.children@[i], t.children@[i], max_depth)
    }
}

/// Every node of the tree lies above depth `d`.
pub open spec fn shallower_than(t: Node, d: int) -> bool
    decreases t,
{
    &&& t.depth < d
    &&& forall|i: int| #![trigger t.children@[i]] 0 <= i < t.children@.len() ==> shallower_than(t.children@[i], d)
}

/// Copies `t`, leaving out the children of every node at depth
/// `max_depth` or deeper; sizes are kept as they are.
pub fn copy_truncated(t: &Node, max_depth: Option<usize>) -> (r: Node)
    ensures
        truncated_copy(r, *t, max_depth),
    decreases t,
{
    let cut = match max_depth {
        Some(d) => t.depth >= d,
        None => false,
    };
    let mut children: Vec<Node> = Vec::new();
    if !cut {
        let mut i: usize = 0;
        while i < t.children.len()
            invariant
                0 <= i <= t.children@.len(),
                children@.len() == i,
                forall|j: int|
                    #![trigger children@[j]]
                    0 <= j < i ==> truncated_copy(children@[j], t.children@[j], max_depth),
            decreases t.children@.len() - i,
        {
            let c = copy_truncated(&t.children[i], max_depth);
            children.push(c);
            i = i + 1;
        }
    }
    Node { name: t.name.clone(), size: t.size, children, inode_device: t.inode_device, depth: t.depth }
}

/// A projection with a bound deeper than every node of the tree leaves
/// nothing out: it is a full copy, equal in every size.
pub proof fn lemma_deep_bound_is_full_copy(r: Node, t: Node, d: usize)
    requires
        truncated_copy(r, t, Some(d)),
        shallower_than(t, d as int),
    ensures
        truncated_copy(r, t, None),
    decreases t,
{
    assert forall|i: int| #![trigger r.children@[i]] 0 <= i < r.children@.len() implies truncated_copy(
        r.children@[i],
        t.children@[i],
        None,
    ) by {
        assert(shallower_than(t.children@[i], d as int));
        lemma_deep_bound_is_full_copy(r.children@[i], t.children@[i], d);
    }
}

pub proof fn lemma_sizes_sum_push(s: Seq<Node>, x: Node)
    ensures
        sizes_sum(s.push(x)) == sizes_sum(s) + x.size,
{
    assert(s.push(x).drop_last() =~= s);
}

pub proof fn lemma_sizes_sum_prefix_step(s: Seq<Node>, i: int)
    requires
        0 <= i < s.len(),
    ensures
        sizes_sum(s.subrange(0, i + 1)) == sizes_sum(s.subrange(0, i)) + s[i].size,
{
    assert(s.subrange(0, i + 1).drop_last() =~= s.subrange(0, i));
}

pub proof fn lemma_sizes_sum_prefix_le(s: Seq<Node>, i: int)
    requires
        0 <= i <= s.len(),
    ensures
        sizes_sum(s.subrange(0, i)) <= sizes_sum(s),
        0 <= sizes_sum(s.subrange(0, i)),
    decreases s.len() - i,
{
    if i < s.len() {
        lemma_sizes_sum_prefix_step(s, i);
        lemma_sizes_sum_prefix_le(s, i + 1);
        lemma_sizes_sum_nonneg(s.subrange(0, i));
    } else {
        assert(s.subrange(0, i) =~= s);
        lemma_sizes_sum_nonneg(s);
    }
}

pub proof fn lemma_sizes_sum_nonneg(s: Seq<Node>)
    ensures
        0 <= sizes_sum(s),
    decreases s.len(),
{
    if s.len() > 0 {
        lemma_sizes_sum_nonneg(s.drop_last());
    }
}

/// Total size of `children`, or `None` when it does not fit in 64 bits.
pub fn children_size(children: &Vec<Node>) -> (r: Option<u64>)
    ensures
        r matches Some(t) ==> t == sizes_sum(children@),
        r is None <==> sizes_sum(children@) > u64::MAX,
{
    let mut total: u64 = 0;
    let mut i: usize = 0;
    while i < children.len()
        invariant
            0 <= i <= children@.len(),
            total == sizes_sum(children@.subrange(0, i as int)),
        decreases children@.len() - i,
    {
        proof {
            lemma_sizes_sum_prefix_step(children@, i as int);
            lemma_sizes_sum_prefix_le(children@, i as int + 1);
        }
        match total.checked_add(children[i].size) {
            Some(t) => total = t,
            None => return None,
        }
        i = i + 1;
    }
    proof {
        assert(children@.subrange(0, i as int) =~= children@);
    }
    Some(total)
}

/// What the metadata resolver reports for one path.
#[derive(Debug, PartialEq, Eq, Clone, Copy)]
pub struct Metadata {
    /// Apparent or allocated size in bytes, as the walk asked for.
    pub size: u64,
    /// (device, inode) pair, when the platform has one.
    pub identity: Option<(u64, u64)>,
}

/// A symlink that is not followed contributes neither size nor identity.
pub open spec fn discards_link(use_apparent_size: bool, is_symlink: bool) -> bool {
    is_symlink && !use_apparent_size
}

/// What an entry adds to its size by itself.
pub open spec fn own_contribution(
    meta: Metadata,
    filter_regex: Seq<Pattern>,
    invert_filter_regex: Seq<Pattern>,
    use_apparent_size: bool,
    is_symlink: bool,
    path: Seq<char>,
) -> int {
    if misses_filter(filter_regex, path) || matches_any(invert_filter_regex, path)
        || discards_link(use_apparent_size, is_symlink) {
        0
    } else {
        meta.size as int
    }
}

/// `n` is the node built for `dir` from `meta` and `children`.
pub open spec fn built_as(
    n: Node,
    dir: Seq<char>,
    children: Seq<Node>,
    meta: Metadata,
    filter_regex: Seq<Pattern>,
    invert_filter_regex: Seq<Pattern>,
    use_apparent_size: bool,
    is_symlink: bool,
    depth: usize,
) -> bool {
    &&& n.name@ == dir
    &&& n.children@ == children
    &&& n.depth == depth
    &&& n.size == own_contribution(meta, filter_regex, invert_filter_regex, use_apparent_size, is_symlink, dir)
        + sizes_sum(children)
    &&& n.inode_device == if discards_link(use_apparent_size, is_symlink) {
        None
    } else {
        meta.identity
    }
}

/// A node can be built: the metadata is there and the total size fits in
/// 64 bits.
pub open spec fn buildable(
    dir: Seq<char>,
    children: Seq<Node>,
    metadata: Option<Metadata>,
    filter_regex: Seq<Pattern>,
    invert_filter_regex: Seq<Pattern>,
    use_apparent_size: bool,
    is_symlink: bool,
) -> bool {
    &&& metadata is Some
    &&& own_contribution(metadata.unwrap(), filter_regex, invert_filter_regex, use_apparent_size, is_symlink, dir)
        + sizes_sum(children) <= u64::MAX
}

/// Builds the node of `dir` from its metadata and its already built
/// children. No node comes out when the metadata could not be resolved, or
/// when the total size would not fit in 64 bits.
#[allow(clippy::too_many_arguments)]
pub fn build_node(
    dir: String,
    children: Vec<Node>,
    filter_regex: &[Pattern],
    invert_filter_regex: &[Pattern],
    use_apparent_size: bool,
    is_symlink: bool,
    depth: usize,
    metadata: Option<Metadata>,
) -> (r: Option<Node>)
    ensures
        r is Some <==> buildable(
            dir@,
            children@,
            metadata,
            filter_regex@,
            invert_filter_regex@,
            use_apparent_size,
            is_symlink,
        ),
        r matches Some(n) ==> n.name == dir && n.children == children && built_as(
            n,
            dir@,
            children@,
            metadata.unwrap(),
            filter_regex@,
            invert_filter_regex@,
            use_apparent_size,
            is_symlink,
            depth,
        ),
{
    let data = match metadata {
        Some(m) => m,
        None => return None,
    };
    let discard = is_symlink && !use_apparent_size;
    let inode_device = if discard {
        None
    } else {
        data.identity
    };
    let own: u64 = if is_filtered_out_due_to_regex(filter_regex, dir.as_str())
        || is_filtered_out_due_to_invert_regex(invert_filter_regex, dir.as_str()) || discard {
        0
    } else {
        data.size
    };
    let below = match children_size(&children) {
        Some(t) => t,
        None => {
            proof {
                lemma_sizes_sum_nonneg(children@);
            }
            return None;
        },
    };
    match own.checked_add(below) {
        Some(size) => Some(Node { name: dir, size, children, inode_device, depth }),
        None => None,
    }
}

} // verus!
