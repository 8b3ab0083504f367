//! What the tree view keeps between frames, and which nodes a search shows.

use vstd::prelude::*;
use crate::node::{FileNode, NodeView, lemma_views_of, views_of};

verus! {

/// What the user asked to be done with an entry.
#[derive(Debug, Clone)]
pub enum TreeAction {
    Delete(String),
    Open(String),
}

/// The selection and the search text of the tree view.
pub struct TreeView {
    pub selected_path: Option<String>,
    pub search_query: String,
}

/// The lowercase equivalent of `text`, as Unicode defines it.
pub uninterp spec fn lowercase_of(text: Seq<char>) -> Seq<char>;

/// Whether `needle` occurs in `text` as a run of consecutive characters.
pub open spec fn has_substring(text: Seq<char>, needle: Seq<char>) -> bool {
    exists|i: int|
        0 <= i <= text.len() - needle.len() && #[trigger] text.subrange(i, i + needle.len())
            == needle
}

/// Whether the name of `node`, in lowercase, holds `needle`, or that of a
/// node below it does.
pub open spec fn tree_holds(needle: Seq<char>, node: NodeView) -> bool
    decreases node,
{
    has_substring(lowercase_of(node.name), needle) || any_holds(needle, node.children)
}

/// Whether `tree_holds` is true of one of `nodes`.
pub open spec fn any_holds(needle: Seq<char>, nodes: Seq<NodeView>) -> bool
    decreases nodes,
{
    if nodes.len() == 0 {
        false
    } else {
        any_holds(needle, nodes.drop_last()) || tree_holds(needle, nodes.last())
    }
}

/// Whether a search for `query` shows `node`: every node while the query is
/// empty; otherwise a node whose name holds the query, whatever the case of
/// either, and a directory with a child that the search finds.
pub open spec fn search_shows(query: Seq<char>, node: NodeView) -> bool {
    ||| query.len() == 0
    ||| has_substring(lowercase_of(node.name), lowercase_of(query))
    ||| (node.is_dir && any_holds(lowercase_of(query), node.children))
}

/// `any_holds` is true of a sequence where `tree_holds` is true of one of
/// its nodes.
proof fn lemma_any_holds_from(needle: Seq<char>, nodes: Seq<NodeView>, i: int)
    requires
        0 <= i < nodes.len(),
        tree_holds(needle, nodes[i]),
    ensures
        any_holds(needle, nodes),
    decreases nodes.len(),
{
    if i < nodes.len() - 1 {
        lemma_any_holds_from(needle, nodes.drop_last(), i);
    }
}

/// `any_holds` is false of a sequence where `tree_holds` is false of each
/// of its nodes.
proof fn lemma_none_holds(needle: Seq<char>, nodes: Seq<NodeView>)
    requires
        forall|i: int| 0 <= i < nodes.len() ==> !tree_holds(needle, #[trigger] nodes[i]),
    ensures
        !any_holds(needle, nodes),
    decreases nodes.len(),
{
    if nodes.len() > 0 {
        lemma_none_holds(needle, nodes.drop_last());
    }
}

/// Lowercases `text` through `str::to_lowercase`. The result is a function
/// of the text alone, named `lowercase_of`.
#[verifier::external_body]
fn lowercase(text: &str) -> (lowered: String)
    ensures
        lowered@ == lowercase_of(text@),
{
    text.to_lowercase()
}

/// Searches `text` for `needle` through `str::contains`, which is true
/// exactly where the needle matches a run of consecutive characters.
#[verifier::external_body]
fn contains(text: &str, needle: &str) -> (found: bool)
    ensures
        found == has_substring(text@, needle@),
{
    text.contains(needle)
}

impl TreeView {
    /// A view with nothing selected and no search.
    pub fn new() -> (view: Self)
        ensures
            view.selected_path is None,
            view.search_query@ == Seq::<char>::empty(),
    {
        Self { selected_path: None, search_query: String::new() }
    }

    /// Whether `node` or a node below it has a name that holds the search
    /// text, whatever the case of either.
    pub fn matches_search(&self, node: &FileNode) -> (found: bool)
        ensures
            found == tree_holds(lowercase_of(self.search_query@), node@),
    {
        let needle = lowercase(self.search_query.as_str());
        Self::matches_lowered(needle.as_str(), node)
    }

    /// Whether `node` or a node below it has a name that, in lowercase,
    /// holds `needle`.
    pub fn matches_lowered(needle: &str, node: &FileNode) -> (found: bool)
        ensures
            found == tree_holds(needle@, node@),
        decreases node,
    {
        let name = lowercase(node.name.as_str());
        if contains(name.as_str(), needle) {
            return true;
        }
        Self::any_matches(needle, node)
    }

    /// Whether a child of `node`, or a node below one, has a name that, in
    /// lowercase, holds `needle`.
    fn any_matches(needle: &str, node: &FileNode) -> (found: bool)
        ensures
            found == any_holds(needle@, node@.children),
        decreases node, 0int,
    {
        let mut i: usize = 0;
        proof {
            lemma_views_of(node.children@);
        }
        while i < node.children.len()
            invariant
                i <= node.children.len(),
                views_of(node.children@) == node@.children,
                node@.children.len() == node.children.len(),
                forall|j: int|
                    0 <= j < node.children.len() ==> (#[trigger] node@.children[j])
                        == node.children[j]@,
                forall|j: int| 0 <= j < i ==> !tree_holds(needle@, #[trigger] node@.children[j]),
            decreases node.children.len() - i,
        {
            if Self::matches_lowered(needle, &node.children[i]) {
                proof {
                    lemma_any_holds_from(needle@, node@.children, i as int);
                }
                return true;
            }
            i = i + 1;
        }
        proof {
            lemma_none_holds(needle@, node@.children);
        }
        false
    }

    /// Whether the search shows `node`.
    pub fn is_visible(&self, node: &FileNode) -> (visible: bool)
        ensures
            visible == search_shows(self.search_query@, node@),
    {
        if self.search_query.as_str().is_empty() {
            return true;
        }
        let needle = lowercase(self.search_query.as_str());
        let name = lowercase(node.name.as_str());
        if contains(name.as_str(), needle.as_str()) {
            return true;
        }
        node.is_dir && Self::any_matches(needle.as_str(), node)
    }

    /// Whether `node` is the selected one.
    pub fn is_selected(&self, node: &FileNode) -> (selected: bool)
        ensures
            selected == (self.selected_path matches Some(path) && path@ == node.path@),
    {
        match &self.selected_path {
            Some(path) => *path == node.path,
            None => false,
        }
    }

    /// Selects `node`.
    pub fn select(&mut self, node: &FileNode)
        ensures
            final(self).selected_path == Some(node.path),
            final(self).search_query == old(self).search_query,
    {
        self.selected_path = Some(node.path.clone());
    }
}

} // verus!
