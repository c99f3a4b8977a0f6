//! Position nodes: a coordinate plus an owned link to the node it was
//! reached from, used to reconstruct a path backward to the search origin.

use vstd::prelude::*;

verus! {

/// A grid coordinate together with an owned link to the node it was reached
/// from (its parent).  The links form a backward chain that ends in the
/// root of the search; a node with no parent is such a root.
#[derive(Debug)]
pub struct Node {
    pub x: i32,
    pub y: i32,
    pub parent: Option<Box<Node>>,
}

/// A coordinate vector read as a sequence of mathematical integer pairs.
pub open spec fn coords_view(s: Seq<(i32, i32)>) -> Seq<(int, int)> {
    Seq::new(s.len(), |i: int| (s[i].0 as int, s[i].1 as int))
}

impl Node {
    /// The coordinates of this node's whole chain in origin-to-self order:
    /// the root's coordinate first, this node's last.  Never empty.
    pub open spec fn ancestry(self) -> Seq<(int, int)>
        decreases self,
    {
        match self.parent {
            Option::None => seq![(self.x as int, self.y as int)],
            Option::Some(p) => p.ancestry().push((self.x as int, self.y as int)),
        }
    }

    /// The chain's coordinates from this node back toward the origin,
    /// excluding the root: what `find_reverse_path` returns.
    pub open spec fn rev_path(self) -> Seq<(int, int)>
        decreases self,
    {
        match self.parent {
            Option::None => Seq::empty(),
            Option::Some(p) => seq![(self.x as int, self.y as int)] + p.rev_path(),
        }
    }

    /// A root node with no parent.
    pub fn new(x: i32, y: i32) -> (r: Node)
        ensures
            r.x == x,
            r.y == y,
            r.parent is None,
            r.ancestry() == seq![(x as int, y as int)],
            r.rev_path() == Seq::<(int, int)>::empty(),
    {
        Node { x, y, parent: Option::None }
    }

    /// Makes `child_node` a child of `self`: its parent link becomes a copy
    /// of `self`'s whole chain, set exactly once here and frozen after.
    pub fn add(&self, child_node: &mut Node)
        ensures
            final(child_node).x == old(child_node).x,
            final(child_node).y == old(child_node).y,
            final(child_node).ancestry() == self.ancestry().push(
                (old(child_node).x as int, old(child_node).y as int),
            ),
            final(child_node).rev_path() == seq![
                (old(child_node).x as int, old(child_node).y as int),
            ] + self.rev_path(),
    {
        child_node.parent = Option::Some(Box::new(self.clone()));
    }

    /// The chain's coordinates from this node back to (and excluding) the
    /// root, in that backward order.
    pub fn find_reverse_path(&self) -> (r: Vec<(i32, i32)>)
        ensures
            coords_view(r@) == self.rev_path(),
    {
        let mut result: Vec<(i32, i32)> = Vec::new();
        let mut current: &Node = self;
        while current.parent.is_some()
            invariant
                coords_view(result@) + current.rev_path() == self.rev_path(),
            decreases current.ancestry().len(),
        {
            result.push((current.x, current.y));
            proof {
                assert(coords_view(result@) =~= coords_view(result@.drop_last()).push(
                    (current.x as int, current.y as int),
                ));
                assert(coords_view(result@) + current.parent->Some_0.rev_path()
                    =~= coords_view(result@.drop_last()) + current.rev_path());
                current.parent->Some_0.lemma_ancestry_len();
            }
            current = current.parent.as_ref().unwrap();
        }
        proof {
            assert(coords_view(result@) =~= coords_view(result@) + current.rev_path());
        }
        result
    }

    /// A chain always contains at least its own coordinate.
    pub proof fn lemma_ancestry_len(self)
        ensures
            self.ancestry().len() >= 1,
            self.ancestry().last() == (self.x as int, self.y as int),
        decreases self,
    {
        match self.parent {
            Option::None => {},
            Option::Some(p) => p.lemma_ancestry_len(),
        }
    }

    /// The reverse path is the whole chain minus the root, read backward.
    pub proof fn lemma_rev_path_ancestry(self)
        ensures
            self.rev_path().reverse() == self.ancestry().subrange(
                1,
                self.ancestry().len() as int,
            ),
        decreases self,
    {
        match self.parent {
            Option::None => {
                assert(self.rev_path().reverse() =~= self.ancestry().subrange(
                    1,
                    self.ancestry().len() as int,
                ));
            },
            Option::Some(p) => {
                p.lemma_rev_path_ancestry();
                p.lemma_ancestry_len();
                assert(self.rev_path().reverse() =~= p.rev_path().reverse().push(
                    (self.x as int, self.y as int),
                ));
                assert(self.ancestry().subrange(1, self.ancestry().len() as int)
                    =~= p.ancestry().subrange(1, p.ancestry().len() as int).push(
                    (self.x as int, self.y as int),
                ));
            },
        }
    }
}

impl Clone for Node {
    /// A deep copy of the node and its whole parent chain.
    fn clone(&self) -> (r: Node)
        ensures
            r == *self,
        decreases *self,
    {
        Node {
            x: self.x,
            y: self.y,
            parent: match &self.parent {
                Option::None => Option::None,
                Option::Some(p) => Option::Some(Box::new((**p).clone())),
            },
        }
    }
}

} // verus!
