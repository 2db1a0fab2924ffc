use crate::node::{aggregated, avoids, avoids_below, depths_consistent, children_size, lemma_sizes_sum_nonneg, lemma_sizes_sum_prefix_le,
    lemma_sizes_sum_prefix_step, lemma_sizes_sum_push, own_size, sizes_sum, Node};
use std::collections::HashSet;
use vstd::prelude::*;

verus! {

broadcast use vstd::std_specs::hash::group_hash_axioms;

/// One integer per (device, inode) pair, distinct for distinct pairs.
pub open spec fn identity_key(id: (u64, u64)) -> u128 {
    (id.0 as int * 0x1_0000_0000_0000_0000 + id.1 as int) as u128
}

/// Under allocated-size accounting, the node's identity was met before.
pub open spec fn dropped(x: Node, seen: Set<u128>, use_apparent_size: bool) -> bool {
    &&& !use_apparent_size
    &&& x.inode_device is Some
    &&& seen.contains(identity_key(x.inode_device.unwrap()))
}

/// The seen identities once `x` itself has been recorded.
pub open spec fn seen_with(x: Node, seen: Set<u128>, use_apparent_size: bool) -> Set<u128> {
    if !use_apparent_size && x.inode_device is Some {
        seen.insert(identity_key(x.inode_device.unwrap()))
    } else {
        seen
    }
}

/// The seen identities after the pass over the subtree of `x`.
pub open spec fn seen_after(x: Node, seen: Set<u128>, use_apparent_size: bool) -> Set<u128>
    decreases x, 0int,
{
    if dropped(x, seen, use_apparent_size) {
        seen
    } else {
        seen_after_children(
            x.children@,
            x.children@.len() as int,
            seen_with(x, seen, use_apparent_size),
            use_apparent_size,
        )
    }
}

/// The seen identities after the pass over the first `k` nodes of `s`.
pub open spec fn seen_after_children(
    s: Seq<Node>,
    k: int,
    seen: Set<u128>,
    use_apparent_size: bool,
) -> Set<u128>
    decreases s, k,
{
    if k <= 0 || k > s.len() {
        seen
    } else {
        seen_after(
            s[k - 1],
            seen_after_children(s, k - 1, seen, use_apparent_size),
            use_apparent_size,
        )
    }
}

/// Positions, in order, of the nodes among the first `k` of `s` that survive.
pub open spec fn kept_indices(s: Seq<Node>, k: int, seen: Set<u128>, use_apparent_size: bool) -> Seq<
    int,
>
    decreases k,
{
    if k <= 0 || k > s.len() {
        Seq::empty()
    } else {
        let prev = kept_indices(s, k - 1, seen, use_apparent_size);
        if dropped(s[k - 1], seen_after_children(s, k - 1, seen, use_apparent_size), use_apparent_size) {
            prev
        } else {
            prev.push(k - 1)
        }
    }
}

/// `r` is what the pass makes of `x` when it arrives with `seen`: same name
/// and depth, identity cleared, the surviving children in their order, each
/// passed through with the identities seen before it, and a size that is
/// the node's own contribution plus the surviving children's sizes.
pub open spec fn deduped(r: Node, x: Node, seen: Set<u128>, use_apparent_size: bool) -> bool
    decreases x,
{
    let s = x.children@;
    let seen1 = seen_with(x, seen, use_apparent_size);
    let ks = kept_indices(s, s.len() as int, seen1, use_apparent_size);
    &&& r.name@ == x.name@
    &&& r.depth == x.depth
    &&& r.inode_device is None
    &&& r.size == own_size(x) + sizes_sum(r.children@)
    &&& r.children@.len() == ks.len()
    &&& forall|m: int|
        #![trigger r.children@[m]]
        0 <= m < ks.len() ==> {
            &&& 0 <= ks[m] < s.len()
            &&& deduped(
                r.children@[m],
                s[ks[m]],
                seen_after_children(s, ks[m], seen1, use_apparent_size),
                use_apparent_size,
            )
        }
}

/// `kept` is what the pass made of the surviving nodes among the first `k`
/// of `s`, in order.
pub open spec fn kept_prefix_ok(
    kept: Seq<Node>,
    s: Seq<Node>,
    k: int,
    seen1: Set<u128>,
    use_apparent_size: bool,
) -> bool {
    let ks = kept_indices(s, k, seen1, use_apparent_size);
    &&& kept.len() == ks.len()
    &&& forall|m: int|
        #![trigger kept[m]]
        0 <= m < kept.len() ==> {
            &&& 0 <= ks[m] < k
            &&& deduped(
                kept[m],
                s[ks[m]],
                seen_after_children(s, ks[m], seen1, use_apparent_size),
                use_apparent_size,
            )
            &&& aggregated(kept[m])
        }
}

/// The seen identities only grow over the pass on a subtree.
pub proof fn lemma_seen_grows(x: Node, seen: Set<u128>, use_apparent_size: bool)
    ensures
        seen.subset_of(seen_after(x, seen, use_apparent_size)),
        !dropped(x, seen, use_apparent_size) && !use_apparent_size && x.inode_device is Some
            ==> seen_after(x, seen, use_apparent_size).contains(
            identity_key(x.inode_device.unwrap()),
        ),
    decreases x, 0int,
{
    if !dropped(x, seen, use_apparent_size) {
        let seen1 = seen_with(x, seen, use_apparent_size);
        lemma_seen_grows_children(x.children@, x.children@.len() as int, seen1, use_apparent_size);
    }
}

/// The seen identities only grow over the pass on a run of siblings.
pub proof fn lemma_seen_grows_children(
    s: Seq<Node>,
    k: int,
    seen: Set<u128>,
    use_apparent_size: bool,
)
    ensures
        seen.subset_of(seen_after_children(s, k, seen, use_apparent_size)),
    decreases s, k,
{
    if 0 < k <= s.len() {
        lemma_seen_grows_children(s, k - 1, seen, use_apparent_size);
        lemma_seen_grows(
            s[k - 1],
            seen_after_children(s, k - 1, seen, use_apparent_size),
            use_apparent_size,
        );
    }
}

proof fn lemma_seen_children_monotone(
    s: Seq<Node>,
    i: int,
    j: int,
    seen: Set<u128>,
    use_apparent_size: bool,
)
    requires
        0 <= i <= j <= s.len(),
    ensures
        seen_after_children(s, i, seen, use_apparent_size).subset_of(
            seen_after_children(s, j, seen, use_apparent_size),
        ),
    decreases j - i,
{
    if i < j {
        lemma_seen_children_monotone(s, i, j - 1, seen, use_apparent_size);
        lemma_seen_grows(
            s[j - 1],
            seen_after_children(s, j - 1, seen, use_apparent_size),
            use_apparent_size,
        );
    }
}

proof fn lemma_kept_indices_contains(
    s: Seq<Node>,
    k: int,
    seen: Set<u128>,
    use_apparent_size: bool,
    j: int,
)
    requires
        0 <= k <= s.len(),
    ensures
        kept_indices(s, k, seen, use_apparent_size).contains(j) <==> (0 <= j < k && !dropped(
            s[j],
            seen_after_children(s, j, seen, use_apparent_size),
            use_apparent_size,
        )),
        forall|m: int|
            0 <= m < kept_indices(s, k, seen, use_apparent_size).len() ==> #[trigger] kept_indices(
                s,
                k,
                seen,
                use_apparent_size,
            )[m] < k,
    decreases k,
{
    if k > 0 {
        lemma_kept_indices_contains(s, k - 1, seen, use_apparent_size, j);
        let prev = kept_indices(s, k - 1, seen, use_apparent_size);
        if !dropped(s[k - 1], seen_after_children(s, k - 1, seen, use_apparent_size), use_apparent_size) {
            assert(prev.push(k - 1)[prev.len() as int] == k - 1);
            if j == k - 1 {
                assert(prev.push(k - 1)[prev.len() as int] == j);
            } else if prev.push(k - 1).contains(j) {
                let pushed = prev.push(k - 1);
                let w = choose|w: int| 0 <= w < pushed.len() && #[trigger] pushed[w] == j;
                assert(prev[w] == j);
            } else if prev.contains(j) {
                let w = choose|w: int| 0 <= w < prev.len() && prev[w] == j;
                assert(prev.push(k - 1)[w] == j);
            }
        }
    }
}

/// Two siblings that share one (device, inode) pair, under allocated-size
/// accounting: the later one never survives the pass, and the earlier one
/// survives unless the pair was met before it. Only surviving children are
/// summed into their parent, so the pair's size is counted at most once.
pub proof fn lemma_hard_link_counted_once(s: Seq<Node>, seen: Set<u128>, i: int, j: int)
    requires
        0 <= i < j < s.len(),
        s[i].inode_device is Some,
        s[i].inode_device == s[j].inode_device,
    ensures
        !kept_indices(s, s.len() as int, seen, false).contains(j),
        !seen_after_children(s, i, seen, false).contains(identity_key(s[i].inode_device.unwrap()))
            ==> kept_indices(s, s.len() as int, seen, false).contains(i),
{
    let key = identity_key(s[i].inode_device.unwrap());
    lemma_kept_indices_contains(s, s.len() as int, seen, false, i);
    lemma_kept_indices_contains(s, s.len() as int, seen, false, j);
    lemma_seen_grows(s[i], seen_after_children(s, i, seen, false), false);
    lemma_seen_children_monotone(s, i + 1, j, seen, false);
    assert(seen_after_children(s, i + 1, seen, false).contains(key));
    assert(seen_after_children(s, j, seen, false).contains(key));
}

/// The pass keeps names and depths: a tree without ignored paths and with
/// consistent depths stays so.
pub proof fn lemma_deduped_shape(
    r: Node,
    x: Node,
    seen: Set<u128>,
    use_apparent_size: bool,
    ignore: Seq<String>,
)
    requires
        deduped(r, x, seen, use_apparent_size),
    ensures
        depths_consistent(x) ==> depths_consistent(r),
        avoids(x, ignore) ==> avoids(r, ignore),
        avoids_below(x, ignore) ==> avoids_below(r, ignore),
    decreases x,
{
    let s = x.children@;
    let seen1 = seen_with(x, seen, use_apparent_size);
    let ks = kept_indices(s, s.len() as int, seen1, use_apparent_size);
    assert forall|m: int| #![trigger r.children@[m]] 0 <= m < r.children@.len() implies {
        &&& depths_consistent(x) ==> r.children@[m].depth == r.depth + 1 && depths_consistent(
            r.children@[m],
        )
        &&& avoids(s[ks[m]], ignore) ==> avoids(r.children@[m], ignore)
        &&& r.children@[m].name@ == s[ks[m]].name@
        &&& 0 <= ks[m] < s.len()
    } by {
        lemma_deduped_shape(
            r.children@[m],
            s[ks[m]],
            seen_after_children(s, ks[m], seen1, use_apparent_size),
            use_apparent_size,
            ignore,
        );
        if depths_consistent(x) {
            assert(s[ks[m]].depth == x.depth + 1);
        }
    }
    if avoids(x, ignore) {
        assert forall|m: int| #![trigger r.children@[m]] 0 <= m < r.children@.len() implies avoids(
            r.children@[m],
            ignore,
        ) by {
            assert(r.children@[m].name@ == s[ks[m]].name@);
            assert(avoids(s[ks[m]], ignore));
        }
    }
    if avoids_below(x, ignore) {
        assert forall|m: int| #![trigger r.children@[m]] 0 <= m < r.children@.len() implies avoids(
            r.children@[m],
            ignore,
        ) by {
            assert(r.children@[m].name@ == s[ks[m]].name@);
            assert(avoids(s[ks[m]], ignore));
        }
    }
}

/// A node without children passes through unchanged but for its
/// identity, which is cleared.
pub proof fn lemma_deduped_childless(r: Node, x: Node, seen: Set<u128>, use_apparent_size: bool)
    requires
        deduped(r, x, seen, use_apparent_size),
        x.children@.len() == 0,
    ensures
        r.name@ == x.name@,
        r.size == x.size,
        r.depth == x.depth,
        r.children@.len() == 0,
        r.inode_device is None,
{
    let s = x.children@;
    assert(kept_indices(s, 0, seen_with(x, seen, use_apparent_size), use_apparent_size).len() == 0);
    assert(r.children@ =~= Seq::<Node>::empty());
    assert(sizes_sum(s) == 0);
    assert(sizes_sum(r.children@) == 0);
}

/// The node reached from `x` by following the child positions in `p`.
pub open spec fn node_at(x: Node, p: Seq<int>) -> Node
    decreases p.len(),
{
    if p.len() > 0 && 0 <= p[0] < x.children@.len() {
        node_at(x.children@[p[0]], p.drop_first())
    } else {
        x
    }
}

/// The pass, arriving at `x` with `seen`, keeps `x` and every node on the
/// way down `p`: none of them was dropped for an identity met before.
pub open spec fn survives_at(x: Node, seen: Set<u128>, use_apparent_size: bool, p: Seq<int>) -> bool
    decreases p.len(),
{
    &&& !dropped(x, seen, use_apparent_size)
    &&& p.len() > 0 ==> {
        &&& 0 <= p[0] < x.children@.len()
        &&& survives_at(
            x.children@[p[0]],
            seen_after_children(
                x.children@,
                p[0],
                seen_with(x, seen, use_apparent_size),
                use_apparent_size,
            ),
            use_apparent_size,
            p.drop_first(),
        )
    }
}

/// Every position of `p` names an existing child on the way down.
pub open spec fn path_valid(x: Node, p: Seq<int>) -> bool
    decreases p.len(),
{
    p.len() > 0 ==> 0 <= p[0] < x.children@.len() && path_valid(x.children@[p[0]], p.drop_first())
}

/// Every node of the pass's output comes from a node of the input that the
/// pass kept, all the way down, with the same name. So a node that does not
/// survive has no trace in the output.
pub proof fn lemma_output_from_survivors(
    r: Node,
    x: Node,
    seen: Set<u128>,
    use_apparent_size: bool,
    pr: Seq<int>,
)
    requires
        deduped(r, x, seen, use_apparent_size),
        !dropped(x, seen, use_apparent_size),
        path_valid(r, pr),
    ensures
        exists|p: Seq<int>|
            survives_at(x, seen, use_apparent_size, p) && #[trigger] node_at(x, p).name@ == node_at(
                r,
                pr,
            ).name@,
    decreases pr.len(),
{
    if pr.len() == 0 {
        let p = Seq::<int>::empty();
        assert(survives_at(x, seen, use_apparent_size, p));
        assert(node_at(x, p) == x);
        assert(node_at(r, pr) == r);
    } else {
        let s = x.children@;
        let seen1 = seen_with(x, seen, use_apparent_size);
        let ks = kept_indices(s, s.len() as int, seen1, use_apparent_size);
        let m = pr[0];
        let rc = r.children@[m];
        let i = ks[m];
        let seen_c = seen_after_children(s, i, seen1, use_apparent_size);
        assert(0 <= i < s.len() && deduped(rc, s[i], seen_c, use_apparent_size));
        lemma_kept_indices_contains(s, s.len() as int, seen1, use_apparent_size, i);
        assert(ks.contains(i)) by {
            assert(ks[m] == i);
        }
        lemma_output_from_survivors(rc, s[i], seen_c, use_apparent_size, pr.drop_first());
        let pc = choose|pc: Seq<int>|
            survives_at(s[i], seen_c, use_apparent_size, pc) && #[trigger] node_at(s[i], pc).name@ == node_at(
                rc,
                pr.drop_first(),
            ).name@;
        let p = seq![i] + pc;
        assert(p.drop_first() =~= pc);
        assert(p[0] == i);
        assert(survives_at(x, seen, use_apparent_size, p));
        assert(node_at(x, p) == node_at(s[i], pc));
        assert(node_at(r, pr) == node_at(rc, pr.drop_first()));
    }
}

proof fn lemma_survivor_recorded(x: Node, seen: Set<u128>, p: Seq<int>)
    requires
        survives_at(x, seen, false, p),
        node_at(x, p).inode_device is Some,
    ensures
        !seen.contains(identity_key(node_at(x, p).inode_device.unwrap())),
        seen_after(x, seen, false).contains(identity_key(node_at(x, p).inode_device.unwrap())),
    decreases p.len(),
{
    let key = identity_key(node_at(x, p).inode_device.unwrap());
    if p.len() == 0 {
        lemma_seen_grows(x, seen, false);
    } else {
        let s = x.children@;
        let seen1 = seen_with(x, seen, false);
        let i = p[0];
        let seen_c = seen_after_children(s, i, seen1, false);
        lemma_survivor_recorded(s[i], seen_c, p.drop_first());
        lemma_seen_grows_children(s, i, seen1, false);
        assert(seen.subset_of(seen1));
        assert(seen_after_children(s, i + 1, seen1, false) == seen_after(s[i], seen_c, false));
        lemma_seen_children_monotone(s, i + 1, s.len() as int, seen1, false);
    }
}

/// Two nodes with one (device, inode) pair, in different subtrees below
/// one directory (at any depth, the subtree roots included), under
/// allocated-size accounting: once the node in the earlier subtree is kept,
/// the one in the later subtree is not. Only kept nodes are summed into
/// their parents, so the pair's size is counted once.
pub proof fn lemma_hard_link_kept_once(
    s: Seq<Node>,
    seen: Set<u128>,
    i: int,
    j: int,
    p: Seq<int>,
    q: Seq<int>,
)
    requires
        0 <= i < j < s.len(),
        node_at(s[i], p).inode_device is Some,
        node_at(s[i], p).inode_device == node_at(s[j], q).inode_device,
        survives_at(s[i], seen_after_children(s, i, seen, false), false, p),
    ensures
        !survives_at(s[j], seen_after_children(s, j, seen, false), false, q),
{
    let key = identity_key(node_at(s[i], p).inode_device.unwrap());
    lemma_survivor_recorded(s[i], seen_after_children(s, i, seen, false), p);
    lemma_seen_children_monotone(s, i + 1, j, seen, false);
    assert(seen_after_children(s, j, seen, false).contains(key));
    if survives_at(s[j], seen_after_children(s, j, seen, false), false, q) {
        lemma_survivor_recorded(s[j], seen_after_children(s, j, seen, false), q);
    }
}

fn key_of(id: (u64, u64)) -> (r: u128)
    ensures
        r == identity_key(id),
{
    let hi = id.0 as u128;
    let lo = id.1 as u128;
    assert(hi * 0x1_0000_0000_0000_0000u128 + lo <= u128::MAX) by (nonlinear_arith)
        requires
            hi <= u64::MAX,
            lo <= u64::MAX,
    ;
    hi * 0x1_0000_0000_0000_0000u128 + lo
}

/// Post-order pass that drops every node whose (device, inode) pair was
/// met before (unless apparent sizes are counted), recomputes sizes from
/// the surviving children and clears identities.
pub fn clean_inodes(x: &Node, inodes: &mut HashSet<u128>, use_apparent_size: bool) -> (r: Option<
    Node,
>)
    requires
        aggregated(*x),
    ensures
        r is None <==> dropped(*x, old(inodes)@, use_apparent_size),
        r matches Some(n) ==> {
            &&& deduped(n, *x, old(inodes)@, use_apparent_size)
            &&& aggregated(n)
            &&& n.size <= x.size
        },
        final(inodes)@ == seen_after(*x, old(inodes)@, use_apparent_size),
    decreases x,
{
    if !use_apparent_size {
        if let Some(id) = x.inode_device {
            if !inodes.insert(key_of(id)) {
                return None;
            }
        }
    }
    let ghost seen1 = inodes@;
    let ghost s = x.children@;
    assert(seen1 == seen_with(*x, old(inodes)@, use_apparent_size));
    let mut kept: Vec<Node> = Vec::new();
    let mut total: u64 = 0;
    let mut i: usize = 0;
    while i < x.children.len()
        invariant
            s == x.children@,
            aggregated(*x),
            0 <= i <= s.len(),
            inodes@ == seen_after_children(s, i as int, seen1, use_apparent_size),
            kept@.len() == kept_indices(s, i as int, seen1, use_apparent_size).len(),
            kept_prefix_ok(kept@, s, i as int, seen1, use_apparent_size),
            total == sizes_sum(kept@),
            total <= sizes_sum(s.subrange(0, i as int)),
        decreases s.len() - i,
    {
        proof {
            lemma_sizes_sum_prefix_step(s, i as int);
            lemma_sizes_sum_prefix_le(s, i as int + 1);
            lemma_sizes_sum_prefix_le(s, s.len() as int);
            assert(aggregated(x.children@[i as int]));
        }
        let ghost before = kept_indices(s, i as int, seen1, use_apparent_size);
        let ghost inodes_before = inodes@;
        let ghost kept_before = kept@;
        let c = clean_inodes(&x.children[i], inodes, use_apparent_size);
        let ghost cv = c;
        match c {
            Some(n) => {
                proof {
                    lemma_sizes_sum_push(kept@, n);
                }
                total = total + n.size;
                kept.push(n);
            },
            None => {},
        }
        i = i + 1;
        proof {
            let after = kept_indices(s, i as int, seen1, use_apparent_size);
            assert(inodes_before == seen_after_children(s, i - 1, seen1, use_apparent_size));
            assert(inodes@ == seen_after_children(s, i as int, seen1, use_apparent_size));
            if cv is None {
                assert(after == before);
                assert(kept@ == kept_before);
            } else {
                assert(after == before.push(i - 1));
                assert(kept@ == kept_before.push(cv.unwrap()));
            }
            assert forall|m: int| #![trigger kept@[m]] 0 <= m < kept@.len() implies {
                &&& 0 <= after[m] < i as int
                &&& deduped(
                    kept@[m],
                    s[after[m]],
                    seen_after_children(s, after[m], seen1, use_apparent_size),
                    use_apparent_size,
                )
                &&& aggregated(kept@[m])
            } by {
                if m < before.len() {
                    assert(after[m] == before[m]);
                    assert(kept@[m] == kept_before[m]);
                } else {
                    assert(after[m] == i - 1);
                    assert(kept@[m] == cv.unwrap());
                }
            }
            assert(kept_prefix_ok(kept@, s, i as int, seen1, use_apparent_size)) by {
                assert forall|m: int| #![trigger after[m]] 0 <= m < kept@.len() implies 0 <= after[m] && after[m] < i as int by {
                    if m < before.len() {
                        assert(after[m] == before[m]);
                        assert(kept@[m] == kept_before[m]);
                        assert(0 <= before[m] < i - 1);
                    }
                }
            }
        }
    }
    proof {
        assert(s.subrange(0, s.len() as int) =~= s);
        lemma_sizes_sum_nonneg(s);
    }
    let below = match children_size(&x.children) {
        Some(t) => t,
        None => return None,
    };
    let own = x.size - below;
    let r = Node { name: x.name.clone(), size: own + total, children: kept, inode_device: None, depth: x.depth };
    proof {
        assert(r.children@ == kept@);
        let ks = kept_indices(s, s.len() as int, seen1, use_apparent_size);
        assert forall|m: int| #![trigger ks[m]] 0 <= m < ks.len() implies 0 <= ks[m] < s.len() by {
            assert(aggregated(kept@[m]));
        }
        assert forall|m: int| 0 <= m < r.children@.len() implies aggregated(#[trigger] r.children@[m]) by {
            assert(aggregated(kept@[m]));
        }
    }
    Some(r)
}

/// The deduplicated copy of a completed tree: the root always survives.
pub fn deduplicate(root: &Node, use_apparent_size: bool) -> (r: Node)
    requires
        aggregated(*root),
    ensures
        deduped(r, *root, Set::empty(), use_apparent_size),
        aggregated(r),
        r.size <= root.size,
{
    let mut inodes: HashSet<u128> = HashSet::new();
    match clean_inodes(root, &mut inodes, use_apparent_size) {
        Some(n) => n,
        None => {
            proof {
                assert(false);
            }
            Node { name: String::new(), size: 0, children: Vec::new(), inode_device: None, depth: 0 }
        },
    }
}

} // verus!
