//! Ordering a directory's children by size, largest first.

use vstd::prelude::*;
use vstd::seq_lib::to_multiset_build;
use crate::node::{
    FileNode, NodeView, all_well_formed, bytes_in, entries_in, lemma_views_of, sorted_desc,
    total_size, views_of,
};

verus! {

/// `nodes`, already ordered, with `x` placed behind every node that is at
/// least as large as `x`.
pub open spec fn insert_desc(nodes: Seq<NodeView>, x: NodeView) -> Seq<NodeView>
    decreases nodes.len(),
{
    if nodes.len() == 0 {
        seq![x]
    } else if nodes.last().size >= x.size {
        nodes.push(x)
    } else {
        insert_desc(nodes.drop_last(), x).push(nodes.last())
    }
}

/// The stable ordering of `nodes` by size, largest first: the nodes are
/// placed one after another, each behind every node placed before it that is
/// at least as large. Nodes of equal size keep the order they came in.
pub open spec fn sort_desc(nodes: Seq<NodeView>) -> Seq<NodeView>
    decreases nodes.len(),
{
    if nodes.len() == 0 {
        Seq::empty()
    } else {
        insert_desc(sort_desc(nodes.drop_last()), nodes.last())
    }
}

/// Two ordered runs woven into one; where sizes tie, the node of `a` comes
/// first.
pub open spec fn merge_desc(a: Seq<NodeView>, b: Seq<NodeView>) -> Seq<NodeView>
    decreases a.len() + b.len(),
{
    if b.len() == 0 {
        a
    } else if a.len() == 0 {
        b
    } else if a.last().size >= b.last().size {
        merge_desc(a, b.drop_last()).push(b.last())
    } else {
        merge_desc(a.drop_last(), b).push(a.last())
    }
}

/// Placing a node keeps the order, adds exactly that node, and adds its
/// size, entries and file bytes to the totals.
pub proof fn lemma_insert_desc(nodes: Seq<NodeView>, x: NodeView)
    ensures
        insert_desc(nodes, x).len() == nodes.len() + 1,
        insert_desc(nodes, x).to_multiset() == nodes.to_multiset().insert(x),
        forall|i: int|
            0 <= i < insert_desc(nodes, x).len() ==> {
                let y = #[trigger] insert_desc(nodes, x)[i];
                y == x || nodes.contains(y)
            },
        sorted_desc(nodes) ==> sorted_desc(insert_desc(nodes, x)),
        total_size(insert_desc(nodes, x)) == total_size(nodes) + x.size,
        entries_in(insert_desc(nodes, x)) == entries_in(nodes) + x.entry_count(),
        bytes_in(insert_desc(nodes, x)) == bytes_in(nodes) + x.file_bytes(),
    decreases nodes.len(),
{
    broadcast use to_multiset_build;

    let r = insert_desc(nodes, x);
    if nodes.len() == 0 {
        assert(r.drop_last() =~= nodes);
        assert(nodes =~= Seq::<NodeView>::empty());
    } else if nodes.last().size >= x.size {
        assert(r.drop_last() =~= nodes);
    } else {
        let front = nodes.drop_last();
        let placed = insert_desc(front, x);
        lemma_insert_desc(front, x);
        assert(r.drop_last() =~= placed);
        assert(nodes =~= front.push(nodes.last()));
        assert(r.to_multiset() =~= nodes.to_multiset().insert(x));
        assert forall|i: int| 0 <= i < r.len() implies {
            let y = #[trigger] r[i];
            y == x || nodes.contains(y)
        } by {
            if i < placed.len() {
                let y = placed[i];
                if y != x {
                    let j = choose|j: int| 0 <= j < front.len() && front[j] == y;
                    assert(nodes[j] == y);
                }
            }
        }
        if sorted_desc(nodes) {
            assert forall|i: int, j: int| 0 <= i < j < r.len() implies r[i].size >= r[j].size by {
                if j == placed.len() && placed[i] != x {
                    let k = choose|k: int| 0 <= k < front.len() && front[k] == placed[i];
                    assert(nodes[k].size >= nodes.last().size);
                }
            }
        }
    }
}

/// `sort_desc` orders its argument by size, largest first, keeps every node
/// as often as it occurred, and leaves the totals of size, entries and file
/// bytes as they were.
pub proof fn lemma_sort_desc(nodes: Seq<NodeView>)
    ensures
        sort_desc(nodes).len() == nodes.len(),
        sorted_desc(sort_desc(nodes)),
        sort_desc(nodes).to_multiset() == nodes.to_multiset(),
        forall|i: int|
            0 <= i < nodes.len() ==> nodes.contains(#[trigger] sort_desc(nodes)[i]),
        all_well_formed(nodes) ==> all_well_formed(sort_desc(nodes)),
        total_size(sort_desc(nodes)) == total_size(nodes),
        entries_in(sort_desc(nodes)) == entries_in(nodes),
        bytes_in(sort_desc(nodes)) == bytes_in(nodes),
    decreases nodes.len(),
{
    broadcast use to_multiset_build;

    let r = sort_desc(nodes);
    if nodes.len() == 0 {
        assert(r =~= nodes);
    } else {
        let front = nodes.drop_last();
        lemma_sort_desc(front);
        lemma_insert_desc(sort_desc(front), nodes.last());
        assert(nodes =~= front.push(nodes.last()));
        assert forall|i: int| 0 <= i < nodes.len() implies nodes.contains(#[trigger] r[i]) by {
            let y = r[i];
            if y != nodes.last() {
                let k = choose|k: int| 0 <= k < front.len() && front[k] == y;
                assert(nodes[k] == y);
            }
        }
        if all_well_formed(nodes) {
            assert forall|i: int| 0 <= i < r.len() implies (#[trigger] r[i]).well_formed() by {
                let k = choose|k: int| 0 <= k < nodes.len() && nodes[k] == r[i];
                assert(nodes[k].well_formed());
            }
        }
    }
}

/// A sequence that is already ordered is its own ordering: sorting twice
/// changes nothing, and ties stay as they were.
pub proof fn lemma_sort_desc_of_sorted(nodes: Seq<NodeView>)
    requires
        sorted_desc(nodes),
    ensures
        sort_desc(nodes) == nodes,
    decreases nodes.len(),
{
    if nodes.len() > 0 {
        lemma_sort_desc_of_sorted(nodes.drop_last());
    }
}

proof fn lemma_insert_into_merge(a: Seq<NodeView>, b: Seq<NodeView>, x: NodeView)
    ensures
        insert_desc(merge_desc(a, b), x) == merge_desc(a, insert_desc(b, x)),
    decreases a.len() + b.len(),
{
    let c = insert_desc(b, x);
    if b.len() == 0 {
        assert(c.drop_last() =~= b);
        if a.len() > 0 && a.last().size < x.size {
            lemma_insert_into_merge(a.drop_last(), b, x);
        }
    } else if a.len() == 0 {
    } else if a.last().size >= b.last().size {
        let m = merge_desc(a, b);
        assert(m.drop_last() =~= merge_desc(a, b.drop_last()));
        if b.last().size >= x.size {
            assert(c.drop_last() =~= b);
        } else {
            lemma_insert_into_merge(a, b.drop_last(), x);
            assert(c.drop_last() =~= insert_desc(b.drop_last(), x));
        }
    } else {
        let m = merge_desc(a, b);
        assert(m.drop_last() =~= merge_desc(a.drop_last(), b));
        if a.last().size >= x.size {
            assert(c.drop_last() =~= b);
        } else {
            lemma_insert_into_merge(a.drop_last(), b, x);
        }
    }
}

/// Sorting two halves and weaving them gives the ordering of the whole.
pub proof fn lemma_merge_of_sorted(a: Seq<NodeView>, b: Seq<NodeView>)
    ensures
        merge_desc(sort_desc(a), sort_desc(b)) == sort_desc(a + b),
    decreases b.len(),
{
    if b.len() > 0 {
        lemma_merge_of_sorted(a, b.drop_last());
        lemma_insert_into_merge(sort_desc(a), sort_desc(b.drop_last()), b.last());
        assert((a + b).drop_last() =~= a + b.drop_last());
    }
}

/// Weaves two ordered runs of nodes into one.
fn merge(a: Vec<FileNode>, b: Vec<FileNode>) -> (out: Vec<FileNode>)
    ensures
        views_of(out@) == merge_desc(views_of(a@), views_of(b@)),
{
    let ghost whole = merge_desc(views_of(a@), views_of(b@));
    let mut a = a;
    let mut b = b;
    // The smallest nodes, taken from the ends of both runs, smallest first.
    let mut tail: Vec<FileNode> = Vec::new();
    proof {
        lemma_views_of(tail@);
    }
    while a.len() > 0 && b.len() > 0
        invariant
            whole == merge_desc(views_of(a@), views_of(b@)) + views_of(tail@).reverse(),
        decreases a.len() + b.len(),
    {
        let ghost a_old = a@;
        let ghost b_old = b@;
        let ghost tail_old = tail@;
        let from_b = a[a.len() - 1].size >= b[b.len() - 1].size;
        let x = if from_b {
            b.pop().unwrap()
        } else {
            a.pop().unwrap()
        };
        tail.push(x);
        proof {
            lemma_views_of(a_old);
            lemma_views_of(b_old);
            lemma_views_of(a@);
            lemma_views_of(b@);
            lemma_views_of(tail_old);
            lemma_views_of(tail@);
            if from_b {
                assert(views_of(b@) =~= views_of(b_old).drop_last());
            } else {
                assert(views_of(a@) =~= views_of(a_old).drop_last());
            }
        }
    }
    let mut out = if a.len() > 0 {
        a
    } else {
        b
    };
    while tail.len() > 0
        invariant
            whole == views_of(out@) + views_of(tail@).reverse(),
        decreases tail.len(),
    {
        let ghost out_old = out@;
        let ghost tail_old = tail@;
        let x = tail.pop().unwrap();
        out.push(x);
        proof {
            lemma_views_of(out_old);
            lemma_views_of(out@);
            lemma_views_of(tail_old);
            lemma_views_of(tail@);
        }
    }
    proof {
        lemma_views_of(tail@);
    }
    out
}

/// Orders `nodes` by size, largest first; nodes of equal size keep the order
/// they came in.
pub fn sort_by_size(nodes: Vec<FileNode>) -> (sorted: Vec<FileNode>)
    ensures
        views_of(sorted@) == sort_desc(views_of(nodes@)),
    decreases nodes.len(),
{
    let n = nodes.len();
    if n <= 1 {
        proof {
            lemma_views_of(nodes@);
            lemma_sort_desc_of_sorted(views_of(nodes@));
        }
        return nodes;
    }
    let mut left = nodes;
    let right = left.split_off(n / 2);
    proof {
        lemma_views_of(nodes@);
        lemma_views_of(left@);
        lemma_views_of(right@);
        assert(views_of(left@) + views_of(right@) =~= views_of(nodes@));
        lemma_merge_of_sorted(views_of(left@), views_of(right@));
    }
    let left = sort_by_size(left);
    let right = sort_by_size(right);
    merge(left, right)
}

} // verus!
