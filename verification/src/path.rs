//! Path addressing: the name of every child of a composite node.

use crate::text::{decimal_text, format_unsigned};
use vstd::prelude::*;

verus! {

/// A location in a tree: the names of the nodes on the way down from the root.
#[derive(Debug, PartialEq, Eq)]
pub struct TreePath {
    parts: Vec<String>,
}

impl View for TreePath {
    type V = Seq<Seq<char>>;

    closed spec fn view(&self) -> Seq<Seq<char>> {
        Seq::new(self.parts@.len(), |i: int| self.parts@[i]@)
    }
}

/// The name of the marker file of a compound enum variant.
pub open spec fn variant_name() -> Seq<char> {
    seq!['v', 'a', 'r', 'i', 'a', 'n', 't']
}

/// The name of the payload of a newtype variant.
pub open spec fn value_name() -> Seq<char> {
    seq!['v', 'a', 'l', 'u', 'e']
}

/// The name of element `i` of a sequence or tuple.
pub open spec fn index_name(i: nat) -> Seq<char> {
    decimal_text(i as int)
}

impl Clone for TreePath {
    fn clone(&self) -> (r: TreePath)
        ensures
            r@ == self@,
    {
        self.prefix(self.parts.len())
    }
}

impl TreePath {
    /// The root: the empty path.
    pub fn new() -> (r: TreePath)
        ensures
            r@ == Seq::<Seq<char>>::empty(),
    {
        let r = TreePath { parts: Vec::new() };
        assert(r@ =~= Seq::<Seq<char>>::empty());
        r
    }

    /// The number of names in the path.
    pub fn len(&self) -> (n: usize)
        ensures
            n == self@.len(),
    {
        self.parts.len()
    }

    /// The name at depth `i`.
    pub fn name(&self, i: usize) -> (r: &String)
        requires
            i < self@.len(),
        ensures
            r@ == self@[i as int],
    {
        &self.parts[i]
    }

    /// The first `n` names of the path.
    pub fn prefix(&self, n: usize) -> (r: TreePath)
        requires
            n <= self@.len(),
        ensures
            r@ == self@.take(n as int),
    {
        let mut parts: Vec<String> = Vec::new();
        let mut i: usize = 0;
        while i < n
            invariant
                i <= n <= self.parts.len(),
                parts@.len() == i,
                forall|k: int| 0 <= k < i ==> parts@[k]@ == self.parts@[k]@,
            decreases n - i,
        {
            parts.push(self.parts[i].clone());
            i = i + 1;
        }
        let r = TreePath { parts };
        assert(r@ =~= self@.take(n as int));
        r
    }

    /// The path of the directory that holds this one; the root has none.
    pub fn parent(&self) -> (r: Option<TreePath>)
        ensures
            self@.len() == 0 ==> r is None,
            self@.len() > 0 ==> (r matches Some(p) && p@ == self@.drop_last()),
    {
        let n = self.parts.len();
        if n == 0 {
            None
        } else {
            let p = self.prefix(n - 1);
            assert(self@.take(n - 1) =~= self@.drop_last());
            Some(p)
        }
    }

    /// The child of this path called `name`.
    pub fn join(&self, name: &str) -> (r: TreePath)
        ensures
            r@ == self@.push(name@),
    {
        let mut r = self.prefix(self.parts.len());
        proof {
            assert(r@.len() == self@.len());
            assert forall|k: int| 0 <= k < self@.len() implies r.parts@[k]@ == self@[k] by {
                assert(r@[k] == self@.take(self@.len() as int)[k]);
            }
        }
        r.parts.push(name.to_owned());
        assert(r@ =~= self@.push(name@));
        r
    }

    /// The child of this path that holds element `i` of a sequence.
    pub fn join_index(&self, i: usize) -> (r: TreePath)
        ensures
            r@ == self@.push(index_name(i as nat)),
    {
        let name = format_unsigned(i as u64);
        self.join(name.as_str())
    }

    /// The child called `variant`: the marker of a compound enum variant.
    pub fn join_variant(&self) -> (r: TreePath)
        ensures
            r@ == self@.push(variant_name()),
    {
        let mut name = String::new();
        name.push('v');
        name.push('a');
        name.push('r');
        name.push('i');
        name.push('a');
        name.push('n');
        name.push('t');
        assert(name@ =~= variant_name());
        self.join(name.as_str())
    }

    /// The child called `value`: the payload of a newtype variant.
    pub fn join_value(&self) -> (r: TreePath)
        ensures
            r@ == self@.push(value_name()),
    {
        let mut name = String::new();
        name.push('v');
        name.push('a');
        name.push('l');
        name.push('u');
        name.push('e');
        assert(name@ =~= value_name());
        self.join(name.as_str())
    }

    /// Whether the two paths are the same.
    pub fn same(&self, other: &TreePath) -> (r: bool)
        ensures
            r == (self@ == other@),
    {
        let r = self.parts.len() == other.parts.len() && other.starts_with(self);
        proof {
            if r {
                assert(other@.subrange(0, self@.len() as int) =~= other@);
            }
            if self@ == other@ {
                assert(self@.len() == other@.len());
                assert(other@.subrange(0, self@.len() as int) =~= other@);
            }
        }
        r
    }

    /// Whether this path lies at or under `prefix`.
    pub fn starts_with(&self, prefix: &TreePath) -> (r: bool)
        ensures
            r == prefix@.is_prefix_of(self@),
    {
        let n = prefix.parts.len();
        if n > self.parts.len() {
            return false;
        }
        let mut i: usize = 0;
        while i < n
            invariant
                i <= n,
                n == prefix.parts.len(),
                n <= self.parts.len(),
                forall|k: int| 0 <= k < i ==> prefix.parts@[k]@ == self.parts@[k]@,
            decreases n - i,
        {
            if prefix.parts[i] != self.parts[i] {
                proof {
                    assert(prefix@[i as int] != self@[i as int]);
                    assert(self@.subrange(0, n as int)[i as int] == self@[i as int]);
                }
                return false;
            }
            i = i + 1;
        }
        proof {
            assert(prefix@ =~= self@.subrange(0, n as int));
        }
        true
    }
}

} // verus!
