//! The shares of a directory that a chart shows: its largest children, each
//! on its own, and the rest as one.

use vstd::prelude::*;
use crate::node::{FileNode, NodeView, lemma_views_of, total_size, views_of};
use crate::order::{insert_desc, lemma_sort_desc, sort_by_size, sort_desc};

verus! {

/// How many children a chart shows on their own.
pub const TOP_SLICES: usize = 8;

/// One share of a chart.
#[derive(Debug)]
pub struct ChartSlice {
    pub name: String,
    pub size: u64,
    /// Whether this share stands for every child that is not shown on its
    /// own.
    pub others: bool,
}

/// The mathematical value of a [`ChartSlice`].
pub struct SliceView {
    pub name: Seq<char>,
    pub size: u64,
    pub others: bool,
}

impl View for ChartSlice {
    type V = SliceView;

    open spec fn view(&self) -> SliceView {
        SliceView { name: self.name@, size: self.size, others: self.others }
    }
}

/// The views of a sequence of shares, in order.
pub open spec fn slice_views(slices: Seq<ChartSlice>) -> Seq<SliceView> {
    slices.map_values(|s: ChartSlice| s@)
}

/// The share of a child that is shown on its own.
pub open spec fn slice_of(node: NodeView) -> SliceView {
    SliceView { name: node.name, size: node.size, others: false }
}

/// The children that the chart of `node` shows on their own: the largest,
/// in the stable order by size, and no more than `TOP_SLICES`.
pub open spec fn top_children(node: NodeView) -> Seq<NodeView> {
    let sorted = sort_desc(node.children);
    if sorted.len() <= TOP_SLICES {
        sorted
    } else {
        sorted.take(TOP_SLICES as int)
    }
}

/// Whether the sizes of the children shown on their own sum within 64 bits.
pub open spec fn chart_fits(node: NodeView) -> bool {
    total_size(top_children(node)) <= u64::MAX
}

/// The chart of `node`. A node of size 0 or without children has no chart.
/// Otherwise each of the largest children has its share, and one more
/// share, named "Others", takes what remains of the node's size, if
/// anything does.
pub open spec fn chart_of(node: NodeView) -> Seq<SliceView> {
    if node.size == 0 || node.children.len() == 0 {
        Seq::empty()
    } else {
        let shown = top_children(node).map_values(|n: NodeView| slice_of(n));
        let accounted = total_size(top_children(node));
        if node.size > accounted {
            shown.push(
                SliceView { name: "Others"@, size: (node.size - accounted) as u64, others: true },
            )
        } else {
            shown
        }
    }
}

/// A node reduced to what its place in the order depends on and what a share
/// shows: its name and its size.
spec fn bare(node: NodeView) -> NodeView {
    NodeView {
        name: node.name,
        path: Seq::empty(),
        size: node.size,
        is_dir: false,
        children: Seq::empty(),
    }
}

spec fn bared(nodes: Seq<NodeView>) -> Seq<NodeView> {
    nodes.map_values(|n: NodeView| bare(n))
}

proof fn lemma_insert_bared(nodes: Seq<NodeView>, x: NodeView)
    ensures
        insert_desc(bared(nodes), bare(x)) == bared(insert_desc(nodes, x)),
    decreases nodes.len(),
{
    if nodes.len() > 0 && nodes.last().size < x.size {
        lemma_insert_bared(nodes.drop_last(), x);
        assert(bared(nodes).drop_last() =~= bared(nodes.drop_last()));
    }
}

/// Ordering bare nodes is ordering the nodes and baring them.
proof fn lemma_sort_bared(nodes: Seq<NodeView>)
    ensures
        sort_desc(bared(nodes)) == bared(sort_desc(nodes)),
    decreases nodes.len(),
{
    if nodes.len() > 0 {
        lemma_sort_bared(nodes.drop_last());
        assert(bared(nodes).drop_last() =~= bared(nodes.drop_last()));
        lemma_insert_bared(sort_desc(nodes.drop_last()), nodes.last());
    }
}

/// The name and size of each child of `node`, without what lies below it.
fn bare_children(node: &FileNode) -> (copies: Vec<FileNode>)
    ensures
        views_of(copies@) == bared(node@.children),
{
    let mut copies: Vec<FileNode> = Vec::new();
    let mut i: usize = 0;
    proof {
        lemma_views_of(node.children@);
        lemma_views_of(copies@);
    }
    while i < node.children.len()
        invariant
            i <= node.children.len(),
            node@.children.len() == node.children.len(),
            forall|j: int|
                0 <= j < node.children.len() ==> (#[trigger] node@.children[j])
                    == node.children[j]@,
            views_of(copies@) == bared(node@.children.take(i as int)),
        decreases node.children.len() - i,
    {
        let ghost before = copies@;
        let child = &node.children[i];
        copies.push(
            FileNode {
                name: child.name.clone(),
                path: String::new(),
                size: child.size,
                is_dir: false,
                children: Vec::new(),
            },
        );
        proof {
            lemma_views_of(before);
            lemma_views_of(copies@);
            assert(views_of(copies@) =~= bared(node@.children.take(i + 1))) by {
                assert forall|j: int| 0 <= j < copies@.len() implies views_of(copies@)[j] == bared(
                    node@.children.take(i + 1),
                )[j] by {
                    if j < i {
                        assert(views_of(before)[j] == bared(node@.children.take(i as int))[j]);
                    }
                }
            }
        }
        i = i + 1;
    }
    copies
}

/// The chart of `node`, or `None` where the sizes of the children shown on
/// their own do not sum within 64 bits.
pub fn chart_slices(node: &FileNode) -> (slices: Option<Vec<ChartSlice>>)
    ensures
        match slices {
            Some(shares) => (node.size == 0 || node.children@.len() == 0 || chart_fits(node@))
                && slice_views(shares@) == chart_of(node@),
            None => node.size != 0 && node.children@.len() != 0 && !chart_fits(node@),
        },
{
    let mut shares: Vec<ChartSlice> = Vec::new();
    proof {
        lemma_views_of(node.children@);
    }
    if node.size == 0 || node.children.len() == 0 {
        return Some(shares);
    }
    let sorted = sort_by_size(bare_children(node));
    let ghost order = sort_desc(node@.children);
    let ghost top = top_children(node@);
    proof {
        lemma_sort_bared(node@.children);
        lemma_views_of(sorted@);
        lemma_sort_desc(node@.children);
        assert forall|j: int| 0 <= j < sorted@.len() implies (#[trigger] sorted@[j])@ == bare(
            order[j],
        ) by {
            assert(views_of(sorted@)[j] == bared(order)[j]);
        }
    }
    let mut accounted: u64 = 0;
    let mut i: usize = 0;
    while i < sorted.len() && i < TOP_SLICES
        invariant
            i <= sorted.len(),
            i <= TOP_SLICES,
            sorted@.len() == order.len(),
            top == top_children(node@),
            order == sort_desc(node@.children),
            forall|j: int| 0 <= j < sorted@.len() ==> (#[trigger] sorted@[j])@ == bare(order[j]),
            accounted == total_size(top.take(i as int)),
            node.size != 0,
            node.children@.len() != 0,
            shares@.len() == i,
            slice_views(shares@) == top.take(i as int).map_values(|n: NodeView| slice_of(n)),
        decreases sorted.len() - i,
    {
        let ghost before = shares@;
        let size = sorted[i].size;
        proof {
            assert(top.take(i + 1).drop_last() =~= top.take(i as int));
            lemma_total_size_take(top, i as int + 1);
        }
        accounted = match accounted.checked_add(size) {
            Some(sum) => sum,
            None => {
                return None;
            },
        };
        shares.push(ChartSlice { name: sorted[i].name.clone(), size, others: false });
        proof {
            assert(slice_views(shares@) =~= top.take(i + 1).map_values(|n: NodeView| slice_of(n)))
                by {
                assert forall|j: int| 0 <= j < shares@.len() implies slice_views(shares@)[j]
                    == top.take(i + 1).map_values(|n: NodeView| slice_of(n))[j] by {
                    if j < i {
                        assert(slice_views(before)[j] == top.take(i as int).map_values(
                            |n: NodeView| slice_of(n),
                        )[j]);
                    }
                }
            }
        }
        i = i + 1;
    }
    assert(top.take(i as int) =~= top);
    if node.size > accounted {
        shares.push(
            ChartSlice { name: "Others".to_owned(), size: node.size - accounted, others: true },
        );
    }
    Some(shares)
}

/// The chart of a well-formed directory fits, and its shares account for
/// the size of the directory exactly: the children shown on their own weigh
/// no more than the directory.
pub proof fn lemma_chart_of_well_formed(node: NodeView)
    requires
        node.well_formed(),
        node.is_dir,
    ensures
        chart_fits(node),
        total_size(top_children(node)) <= node.size,
{
    let sorted = sort_desc(node.children);
    lemma_sort_desc(node.children);
    if sorted.len() > TOP_SLICES {
        lemma_total_size_take(sorted, TOP_SLICES as int);
    }
}

/// The sizes of the first `n` nodes sum to no more than those of all.
proof fn lemma_total_size_take(nodes: Seq<NodeView>, n: int)
    requires
        0 <= n <= nodes.len(),
    ensures
        total_size(nodes.take(n)) <= total_size(nodes),
    decreases nodes.len(),
{
    if n < nodes.len() {
        lemma_total_size_take(nodes.drop_last(), n);
        assert(nodes.drop_last().take(n) =~= nodes.take(n));
    } else {
        assert(nodes.take(n) =~= nodes);
    }
}

} // verus!
