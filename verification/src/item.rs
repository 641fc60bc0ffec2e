//! The untyped item tree of the length-prefixed format.

use vstd::prelude::*;

verus! {

/// Deepest nesting of lists, the root among them, that are entered in search
/// of receipts.
pub const MAX_DEPTH: usize = 64;

/// One node of the format: a byte string or an ordered list of nodes.
#[derive(Debug, PartialEq, Eq)]
pub enum Item {
    Scalar(Vec<u8>),
    List(Vec<Item>),
}

/// Mathematical model of an [`Item`].
pub ghost enum Tree {
    Scalar(Seq<u8>),
    List(Seq<Tree>),
}

impl View for Item {
    type V = Tree;

    open spec fn view(&self) -> Tree
        decreases self,
    {
        match self {
            Item::Scalar(bytes) => Tree::Scalar(bytes@),
            Item::List(items) => Tree::List(
                Seq::new(
                    items@.len(),
                    |i: int|
                        if 0 <= i < items@.len() {
                            items@[i].view()
                        } else {
                            Tree::Scalar(Seq::empty())
                        },
                ),
            ),
        }
    }
}

/// The models of a sequence of items, in order.
pub open spec fn trees_of(items: Seq<Item>) -> Seq<Tree> {
    Seq::new(items.len(), |i: int| items[i]@)
}

impl Tree {
    /// A zero-length scalar: a placeholder that carries nothing.
    pub open spec fn is_placeholder(self) -> bool {
        self matches Tree::Scalar(bytes) && bytes.len() == 0
    }

    /// Number of list levels on the deepest path of the tree.
    pub open spec fn depth(self) -> nat
        decreases self,
    {
        match self {
            Tree::Scalar(_) => 0,
            Tree::List(items) => 1 + Self::max_depth(items),
        }
    }

    /// Largest depth among `items`, zero for none.
    pub open spec fn max_depth(items: Seq<Tree>) -> nat
        decreases items, items.len(),
    {
        if items.len() == 0 {
            0
        } else {
            let head = items[0].depth();
            let tail = Self::max_depth(items.drop_first());
            if head >= tail { head } else { tail }
        }
    }
}

impl Item {
    /// Whether the item is a zero-length scalar.
    pub fn is_placeholder(&self) -> (r: bool)
        ensures
            r == self@.is_placeholder(),
    {
        match self {
            Item::Scalar(bytes) => bytes.len() == 0,
            Item::List(_) => false,
        }
    }

    /// Whether the item is a list.
    pub fn is_list(&self) -> (r: bool)
        ensures
            r == (self@ is List),
    {
        match self {
            Item::Scalar(_) => false,
            Item::List(_) => true,
        }
    }
}

impl Clone for Item {
    /// A copy of the item with everything nested in it.
    #[verifier::loop_isolation(false)]
    fn clone(&self) -> (copy: Item)
        ensures
            copy@ == self@,
        decreases self,
    {
        match self {
            Item::Scalar(bytes) => {
                let mut out: Vec<u8> = Vec::new();
                let mut i: usize = 0;
                while i < bytes.len()
                    invariant
                        i <= bytes@.len(),
                        out@ == bytes@.subrange(0, i as int),
                    decreases bytes@.len() - i,
                {
                    out.push(bytes[i]);
                    i += 1;
                    assert(out@ =~= bytes@.subrange(0, i as int));
                }
                assert(out@ =~= bytes@);
                Item::Scalar(out)
            },
            Item::List(items) => {
                let mut out: Vec<Item> = Vec::new();
                let mut i: usize = 0;
                while i < items.len()
                    invariant
                        i <= items@.len(),
                        trees_of(out@) == trees_of(items@).subrange(0, i as int),
                    decreases items@.len() - i,
                {
                    let member = items[i].clone();
                    out.push(member);
                    i += 1;
                    assert(trees_of(out@) =~= trees_of(items@).subrange(0, i as int));
                }
                assert(trees_of(items@).subrange(0, i as int) =~= trees_of(items@));
                let copy = Item::List(out);
                assert(copy@->List_0 =~= trees_of(out@));
                assert(self@->List_0 =~= trees_of(items@));
                copy
            },
        }
    }
}

} // verus!
