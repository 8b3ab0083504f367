//! The aggregate-size tree and its mathematical model.

use vstd::prelude::*;

verus! {

/// One filesystem entry. A directory's `size` is the sum of its children's
/// sizes and its `children` are ordered by size, largest first; a leaf has
/// no children and carries its own length.
#[derive(Debug)]
pub struct FileNode {
    pub name: String,
    pub path: String,
    pub size: u64,
    pub is_dir: bool,
    pub children: Vec<FileNode>,
}

/// The mathematical value of a [`FileNode`].
pub struct NodeView {
    pub name: Seq<char>,
    pub path: Seq<char>,
    pub size: u64,
    pub is_dir: bool,
    pub children: Seq<NodeView>,
}

/// The views of a sequence of nodes, in order.
pub open spec fn views_of(nodes: Seq<FileNode>) -> Seq<NodeView>
    decreases nodes,
{
    if nodes.len() == 0 {
        Seq::empty()
    } else {
        views_of(nodes.drop_last()).push(nodes.last()@)
    }
}

impl View for FileNode {
    type V = NodeView;

    open spec fn view(&self) -> NodeView
        decreases self,
    {
        NodeView {
            name: self.name@,
            path: self.path@,
            size: self.size,
            is_dir: self.is_dir,
            children: views_of(self.children@),
        }
    }
}

impl Default for FileNode {
    /// A file without name, path or content.
    fn default() -> (node: Self)
        ensures
            node.name@ == Seq::<char>::empty(),
            node.path@ == Seq::<char>::empty(),
            node.size == 0,
            !node.is_dir,
            node.children@ == Seq::<FileNode>::empty(),
    {
        FileNode {
            name: String::new(),
            path: String::new(),
            size: 0,
            is_dir: false,
            children: Vec::new(),
        }
    }
}

impl Clone for FileNode {
    /// A copy of the whole tree.
    fn clone(&self) -> (copy: Self)
        ensures
            copy@ == self@,
        decreases self,
    {
        let mut children: Vec<FileNode> = Vec::new();
        let mut i: usize = 0;
        while i < self.children.len()
            invariant
                i <= self.children.len(),
                views_of(children@) == views_of(self.children@.take(i as int)),
            decreases self.children.len() - i,
        {
            let ghost before = children@;
            let child = self.children[i].clone();
            children.push(child);
            proof {
                lemma_views_of(before);
                lemma_views_of(children@);
                lemma_views_of(self.children@.take(i as int));
                lemma_views_of(self.children@.take(i + 1));
                assert forall|k: int| 0 <= k < children@.len() implies views_of(children@)[k]
                    == views_of(self.children@.take(i + 1))[k] by {
                    if k < i {
                        assert(views_of(before)[k] == views_of(self.children@.take(i as int))[k]);
                    }
                }
            }
            i = i + 1;
        }
        assert(self.children@.take(i as int) =~= self.children@);
        FileNode {
            name: self.name.clone(),
            path: self.path.clone(),
            size: self.size,
            is_dir: self.is_dir,
            children,
        }
    }
}

/// `views_of` keeps length and position: it views each node where it stands.
pub proof fn lemma_views_of(nodes: Seq<FileNode>)
    ensures
        views_of(nodes).len() == nodes.len(),
        forall|i: int| 0 <= i < nodes.len() ==> (#[trigger] views_of(nodes)[i]) == nodes[i]@,
    decreases nodes.len(),
{
    if nodes.len() > 0 {
        lemma_views_of(nodes.drop_last());
        assert(views_of(nodes) == views_of(nodes.drop_last()).push(nodes.last()@));
    }
}

/// The sum of the sizes of `nodes`.
pub open spec fn total_size(nodes: Seq<NodeView>) -> nat
    decreases nodes.len(),
{
    if nodes.len() == 0 {
        0
    } else {
        total_size(nodes.drop_last()) + nodes.last().size as nat
    }
}

/// Whether `nodes` are ordered by size, largest first.
pub open spec fn sorted_desc(nodes: Seq<NodeView>) -> bool {
    forall|i: int, j: int| 0 <= i < j < nodes.len() ==> nodes[i].size >= nodes[j].size
}

/// The number of entries, directories and files alike, in the trees `nodes`.
pub open spec fn entries_in(nodes: Seq<NodeView>) -> nat
    decreases nodes,
{
    if nodes.len() == 0 {
        0
    } else {
        entries_in(nodes.drop_last()) + nodes.last().entry_count()
    }
}

/// The summed lengths of the files in the trees `nodes`.
pub open spec fn bytes_in(nodes: Seq<NodeView>) -> nat
    decreases nodes,
{
    if nodes.len() == 0 {
        0
    } else {
        bytes_in(nodes.drop_last()) + nodes.last().file_bytes()
    }
}

/// Whether every tree of `nodes` is well formed.
pub open spec fn all_well_formed(nodes: Seq<NodeView>) -> bool
    decreases nodes,
{
    forall|i: int| 0 <= i < nodes.len() ==> (#[trigger] nodes[i]).well_formed()
}

impl NodeView {
    /// The invariant of a finished tree: every directory weighs exactly what
    /// its children weigh together and lists them largest first, and no
    /// leaf has children.
    pub open spec fn well_formed(self) -> bool
        decreases self,
    {
        if self.is_dir {
            &&& self.size == total_size(self.children)
            &&& sorted_desc(self.children)
            &&& all_well_formed(self.children)
        } else {
            self.children.len() == 0
        }
    }

    /// The number of entries in this tree, itself included.
    pub open spec fn entry_count(self) -> nat
        decreases self,
    {
        1 + entries_in(self.children)
    }

    /// The summed lengths of the files in this tree.
    pub open spec fn file_bytes(self) -> nat
        decreases self,
    {
        if self.is_dir {
            bytes_in(self.children)
        } else {
            self.size as nat
        }
    }
}

} // verus!
