use vstd::prelude::*;
use vstd::string::*;
use crate::token::{Token, SpecToken};

verus! {

/// The abstract value of a parse tree.
pub enum SpecTree {
    Leaf(SpecToken),
    Node(Seq<char>, Seq<SpecTree>),
}

/// An inner node of a parse tree: the name of a non terminal and its subtrees.
#[derive(Debug)]
pub struct NonLeafNode {
    pub name: String,
    pub children: Vec<Box<ParseTree>>,
}

/// A parse tree: a token, or a non terminal with its subtrees.
#[derive(Debug)]
pub enum ParseTree {
    Leaf(Token),
    NonLeaf(NonLeafNode),
}

/// The abstract value of a parse tree.
pub open spec fn tree_view(t: ParseTree) -> SpecTree
    decreases t,
{
    match t {
        ParseTree::Leaf(tok) => SpecTree::Leaf(tok@),
        ParseTree::NonLeaf(node) => SpecTree::Node(node.name@, children_view(node.children@)),
    }
}

/// The abstract values of a list of subtrees.
pub open spec fn children_view(c: Seq<Box<ParseTree>>) -> Seq<SpecTree>
    decreases c,
{
    if c.len() == 0 {
        Seq::empty()
    } else {
        children_view(c.drop_last()).push(tree_view(*c.last()))
    }
}

impl NonLeafNode {
    /// A node named `name` without subtrees.
    pub fn new(name: &str) -> (res: NonLeafNode)
        ensures
            res.name@ == name@,
            res.children@.len() == 0,
    {
        NonLeafNode { name: name.to_owned(), children: Vec::new() }
    }

    /// Puts `node` in front of the subtrees.
    pub fn push_child_front(&mut self, node: ParseTree)
        ensures
            final(self).name == old(self).name,
            final(self).children@ == seq![Box::new(node)] + old(self).children@,
    {
        self.children.insert(0, Box::new(node));
        assert(self.children@ =~= seq![Box::new(node)] + old(self).children@);
    }
}

impl ParseTree {
    /// An inner node named `name` without subtrees.
    pub fn non_leaf_with_name(name: &str) -> (res: ParseTree)
        ensures
            tree_view(res) == SpecTree::Node(name@, Seq::empty()),
    {
        let node = NonLeafNode { name: name.to_owned(), children: Vec::new() };
        ParseTree::NonLeaf(node)
    }
}

/// `n` spaces.
pub open spec fn spaces(n: nat) -> Seq<char> {
    Seq::new(n, |k: int| ' ')
}

/// The printed form of a tree whose root stands at `depth`: the root's name on a line,
/// indented by two spaces a level, then its subtrees, the last one first.
pub open spec fn tree_text(t: SpecTree, depth: nat) -> Seq<char>
    decreases t, 1nat,
{
    match t {
        SpecTree::Leaf(tok) => spaces(2 * depth) + tok.ttype + seq!['\n'],
        SpecTree::Node(name, cs) => spaces(2 * depth) + name + seq!['\n'] + subtrees_text(cs, depth + 1),
    }
}

/// The printed forms of subtrees, from the last one to the first.
pub open spec fn subtrees_text(cs: Seq<SpecTree>, depth: nat) -> Seq<char>
    decreases cs, 0nat,
{
    if cs.len() == 0 {
        seq![]
    } else {
        tree_text(cs.last(), depth) + subtrees_text(cs.drop_last(), depth)
    }
}

proof fn lemma_children_view(c: Seq<Box<ParseTree>>)
    ensures
        children_view(c).len() == c.len(),
        forall|k: int| 0 <= k < c.len() ==> #[trigger] children_view(c)[k] == tree_view(*c[k]),
    decreases c.len(),
{
    if c.len() > 0 {
        lemma_children_view(c.drop_last());
    }
}

fn write_tree(t: &ParseTree, indent: &String, Ghost(depth): Ghost<nat>, out: &mut String)
    requires
        indent@ == spaces(2 * depth),
    ensures
        final(out)@ == old(out)@ + tree_text(tree_view(*t), depth),
    decreases t,
{
    proof {
        reveal_strlit("\n");
    }
    match t {
        ParseTree::Leaf(tok) => {
            out.append(indent.as_str());
            out.append(tok.ttype.as_str());
            out.append("\n");
            assert(out@ =~= old(out)@ + tree_text(tree_view(*t), depth));
        },
        ParseTree::NonLeaf(node) => {
            out.append(indent.as_str());
            out.append(node.name.as_str());
            out.append("\n");
            let ghost base = out@;
            let ghost cv = children_view(node.children@);
            proof {
                lemma_children_view(node.children@);
                reveal_strlit("  ");
            }
            let mut inner = indent.clone();
            inner.append("  ");
            assert(inner@ =~= spaces(2 * (depth + 1)));
            let mut k = node.children.len();
            assert(cv.take(k as int) =~= cv);
            while k > 0
                invariant
                    k <= node.children@.len(),
                    *t == ParseTree::NonLeaf(*node),
                    cv == children_view(node.children@),
                    cv.len() == node.children@.len(),
                    forall|j: int| 0 <= j < node.children@.len() ==> #[trigger] cv[j] == tree_view(*node.children@[j]),
                    inner@ == spaces(2 * (depth + 1)),
                    out@ + subtrees_text(cv.take(k as int), depth + 1) == base + subtrees_text(cv, depth + 1),
                decreases k,
            {
                k = k - 1;
                let ghost before = out@;
                assert(cv.take(k + 1).drop_last() =~= cv.take(k as int));
                assert(cv.take(k + 1).last() == tree_view(*node.children@[k as int]));
                proof {
                    assert(decreases_to!(*t => (*t)->NonLeaf_0));
                    assert((*t)->NonLeaf_0 == *node);
                    assert(decreases_to!(*node => node.children));
                    assert(decreases_to!(node.children => node.children@));
                    assert(decreases_to!(node.children@ => node.children@[k as int]));
                }
                write_tree(&*node.children[k], &inner, Ghost(depth + 1), out);
                assert(out@ + subtrees_text(cv.take(k as int), depth + 1)
                    =~= before + subtrees_text(cv.take(k + 1), depth + 1));
            }
            assert(cv.take(0) =~= Seq::<SpecTree>::empty());
            assert(out@ =~= base + subtrees_text(cv, depth + 1));
            assert(out@ =~= old(out)@ + tree_text(tree_view(*t), depth));
        },
    }
}

impl ParseTree {
    /// The printed form of the tree: a node per line, indented by two spaces a level,
    /// the subtrees of a node after it, the last one first.
    pub fn to_string(&self) -> (res: String)
        ensures
            res@ == tree_text(tree_view(*self), 0),
    {
        let mut out = String::new();
        let indent = String::new();
        assert(indent@ =~= spaces(0));
        write_tree(self, &indent, Ghost(0), &mut out);
        assert(out@ =~= tree_text(tree_view(*self), 0));
        out
    }
}

} // verus!
