//! A persistent sequence with constant-time size, slicing and concatenation.
//!
//! Slices and concatenations are not copied: they are recorded as nodes of
//! their own over the cells they were made from, and unfolded one element at a
//! time as the chain is walked.

use crate::list::elementwise_eq;
use std::rc::Rc;
use vstd::prelude::*;
use vstd::std_specs::cmp::PartialEqSpec;

verus! {

/// One node of a chain. A node is never changed once it has been built.
pub enum ChainNode<T> {
    /// An element and the node that follows it.
    NonFinal(T, Rc<ChainNode<T>>),
    /// The last element.
    Final(T),
    /// The first elements of another node, as many as the count says.
    Slice(Rc<ChainNode<T>>, u32),
    /// The elements of one node followed by those of another.
    Link(Rc<ChainNode<T>>, Rc<ChainNode<T>>),
}

impl<T> ChainNode<T> {
    /// The elements that a walk from this node visits, in order.
    pub open spec fn elems(self) -> Seq<T>
        decreases self,
    {
        match self {
            ChainNode::NonFinal(head, tail) => seq![head] + tail.elems(),
            ChainNode::Final(head) => seq![head],
            ChainNode::Slice(origin, count) => origin.elems().take(count as int),
            ChainNode::Link(first, second) => first.elems() + second.elems(),
        }
    }

    /// A slice takes at least one element and no more than its origin has;
    /// the same holds of every node below.
    pub open spec fn wf(self) -> bool
        decreases self,
    {
        match self {
            ChainNode::NonFinal(_, tail) => tail.wf(),
            ChainNode::Final(_) => true,
            ChainNode::Slice(origin, count) => origin.wf() && 1 <= count <= origin.elems().len(),
            ChainNode::Link(first, second) => first.wf() && second.wf(),
        }
    }

    /// A well-formed node holds at least one element.
    pub proof fn lemma_elems_nonempty(&self)
        requires
            self.wf(),
        ensures
            self.elems().len() >= 1,
        decreases self,
    {
        match self {
            ChainNode::NonFinal(_, tail) => tail.lemma_elems_nonempty(),
            ChainNode::Final(_) => {},
            ChainNode::Slice(origin, _) => origin.lemma_elems_nonempty(),
            ChainNode::Link(first, second) => {
                first.lemma_elems_nonempty();
                second.lemma_elems_nonempty();
            },
        }
    }

    /// Whether the node stands for a single element.
    pub fn is_final(&self) -> (r: bool)
        requires
            self.wf(),
        ensures
            r == (self.elems().len() == 1),
    {
        proof {
            self.lemma_elems_nonempty();
            match self {
                ChainNode::NonFinal(_, tail) => tail.lemma_elems_nonempty(),
                ChainNode::Link(first, second) => {
                    first.lemma_elems_nonempty();
                    second.lemma_elems_nonempty();
                },
                _ => {},
            }
        }
        match self {
            ChainNode::NonFinal(_, _) => false,
            ChainNode::Final(_) => true,
            ChainNode::Link(_, _) => false,
            ChainNode::Slice(_, count) => *count == 1,
        }
    }

    /// The first element that the node stands for.
    pub fn head(&self) -> (r: &T)
        requires
            self.wf(),
        ensures
            *r == self.elems()[0],
        decreases self,
    {
        match self {
            ChainNode::NonFinal(head, _) => head,
            ChainNode::Final(head) => head,
            ChainNode::Link(first, _) => {
                proof {
                    first.lemma_elems_nonempty();
                }
                first.head()
            },
            ChainNode::Slice(start, _) => start.head(),
        }
    }

    /// The node for what follows the first element. Past the first element
    /// of a concatenation whose first part is at its last element, that is the
    /// second part itself; past the first element of a slice, a slice of one
    /// element less over the origin's own tail.
    pub fn tail(&self) -> (r: Rc<ChainNode<T>>)
        requires
            self.wf(),
            self.elems().len() > 1,
        ensures
            r.wf(),
            r.elems() == self.elems().skip(1),
        decreases self,
    {
        match self {
            ChainNode::NonFinal(_, tail) => {
                assert(self.elems().skip(1) =~= tail.elems());
                tail.clone()
            },
            ChainNode::Final(_) => unreached(),
            ChainNode::Link(start, end) => {
                proof {
                    start.lemma_elems_nonempty();
                }
                if start.is_final() {
                    assert(self.elems().skip(1) =~= end.elems());
                    end.clone()
                } else {
                    let rest = start.tail();
                    assert(self.elems().skip(1) =~= rest.elems() + end.elems());
                    Rc::new(ChainNode::Link(rest, end.clone()))
                }
            },
            ChainNode::Slice(start, size) => {
                let rest = start.tail();
                assert(self.elems().skip(1) =~= rest.elems().take(size - 1));
                Rc::new(ChainNode::Slice(rest, *size - 1))
            },
        }
    }
}

impl<T: PartialEq> ChainNode<T> {
    /// Compares the elements that two nodes stand for, front to back, and
    /// stops at the first position where they differ or where only one of
    /// the two ends.
    pub fn eq(&self, other: &Self) -> (r: bool)
        requires
            self.wf(),
            other.wf(),
        ensures
            T::obeys_eq_spec() ==> r == elementwise_eq(self.elems(), other.elems()),
        decreases self.elems().len(),
    {
        proof {
            self.lemma_elems_nonempty();
            other.lemma_elems_nonempty();
        }
        match (self.is_final(), other.is_final()) {
            (true, true) => self.head() == other.head(),
            (false, false) => if self.head() == other.head() {
                let rest = self.tail();
                let other_rest = other.tail();
                let r = (*rest).eq(&*other_rest);
                proof {
                    if T::obeys_eq_spec() {
                        crate::list::lemma_elementwise_eq_step(self.elems(), other.elems());
                    }
                }
                r
            } else {
                false
            },
            _ => false,
        }
    }
}

/// What a chain looks like from its front: either a first element and the
/// chain after it, or nothing.
pub enum ChainState<'a, T> {
    NonEmptyChain(&'a T, Chain<T>),
    EmptyChain,
}

/// Why a chain operation was refused.
#[derive(Clone, Copy, Debug, PartialEq, Eq, Structural)]
pub enum ChainError {
    /// A slice was asked to hold more elements than the chain it is cut from.
    InvalidSliceSize,
}

/// A persistent sequence that knows its size. Clones share their nodes.
pub struct Chain<T> {
    root: Option<Rc<ChainNode<T>>>,
    size: u32,
}

impl<T> View for Chain<T> {
    type V = Seq<T>;

    /// The elements of the chain, first element first.
    closed spec fn view(&self) -> Seq<T> {
        match self.root {
            Some(node) => node.elems(),
            None => Seq::empty(),
        }
    }
}

impl<T> Chain<T> {
    /// The cached size is the number of elements, and the root is well formed.
    #[verifier::type_invariant]
    spec fn inv(self) -> bool {
        match self.root {
            Some(node) => node.wf() && self.size == node.elems().len(),
            None => self.size == 0,
        }
    }

    /// The chain without elements.
    pub fn empty() -> (r: Chain<T>)
        ensures
            r@ == Seq::<T>::empty(),
    {
        Chain { root: None, size: 0 }
    }

    /// The number of elements, which is kept and never counted.
    pub fn size(&self) -> (r: u32)
        ensures
            r == self@.len(),
    {
        proof {
            use_type_invariant(self);
        }
        self.size
    }

    /// The first element and the chain after it, or nothing where the chain
    /// is empty.
    pub fn state(&self) -> (r: ChainState<'_, T>)
        ensures
            self@.len() == 0 ==> r is EmptyChain,
            self@.len() > 0 ==> (r matches ChainState::NonEmptyChain(head, tail) && *head
                == self@[0] && tail@ == self@.skip(1)),
    {
        proof {
            use_type_invariant(self);
        }
        match &self.root {
            Some(node_ref) => {
                proof {
                    node_ref.lemma_elems_nonempty();
                }
                if node_ref.is_final() {
                    assert(self@.skip(1) =~= Seq::<T>::empty());
                    ChainState::NonEmptyChain(node_ref.head(), Chain { root: None, size: 0 })
                } else {
                    ChainState::NonEmptyChain(
                        node_ref.head(),
                        Chain { root: Some(node_ref.tail()), size: self.size - 1 },
                    )
                }
            },
            None => ChainState::EmptyChain,
        }
    }

    /// The chain that starts with `item` and goes on with `tail`.
    pub fn cons(item: T, tail: Chain<T>) -> (r: Chain<T>)
        requires
            tail@.len() < u32::MAX,
        ensures
            r@ == seq![item] + tail@,
    {
        proof {
            use_type_invariant(&tail);
        }
        match tail.root {
            Some(node_ref) => Chain {
                root: Some(Rc::new(ChainNode::NonFinal(item, node_ref))),
                size: tail.size + 1,
            },
            None => Chain { root: Some(Rc::new(ChainNode::Final(item))), size: 1 },
        }
    }

    /// The first `size` elements of `start`, without copying them.
    pub fn slice(start: Chain<T>, size: u32) -> (r: Result<Chain<T>, ChainError>)
        ensures
            size <= start@.len() ==> (r matches Ok(part) && part@ == start@.take(size as int)),
            size > start@.len() ==> r == Err::<Chain<T>, ChainError>(ChainError::InvalidSliceSize),
    {
        proof {
            use_type_invariant(&start);
        }
        if start.size < size {
            return Err(ChainError::InvalidSliceSize);
        }
        if size == 0 {
            assert(start@.take(0) =~= Seq::<T>::empty());
            return Ok(Chain { root: None, size: 0 });
        }
        match start.root {
            Some(start_node_ref) => Ok(
                Chain { root: Some(Rc::new(ChainNode::Slice(start_node_ref, size))), size: size },
            ),
            None => Ok(Chain { root: None, size: 0 }),
        }
    }

    /// The elements of `first` followed by those of `second`, without copying
    /// them. Where one of the two is empty the other is handed back as it is.
    pub fn concat(first: Chain<T>, second: Chain<T>) -> (r: Chain<T>)
        requires
            first@.len() + second@.len() <= u32::MAX,
        ensures
            r@ == first@ + second@,
            second@.len() == 0 ==> r == first,
            first@.len() == 0 ==> r == second,
    {
        proof {
            use_type_invariant(&first);
            use_type_invariant(&second);
            if let Some(node) = &first.root {
                node.lemma_elems_nonempty();
            }
            if let Some(node) = &second.root {
                node.lemma_elems_nonempty();
            }
        }
        match (&first.root, &second.root) {
            (Some(first_node_ref), Some(second_node_ref)) => Chain {
                root: Some(
                    Rc::new(ChainNode::Link(first_node_ref.clone(), second_node_ref.clone())),
                ),
                size: first.size + second.size,
            },
            (Some(_), None) => {
                assert(first@ + second@ =~= first@);
                first
            },
            (None, Some(_)) => {
                assert(first@ + second@ =~= second@);
                second
            },
            (None, None) => {
                assert(first@ + second@ =~= first@);
                first
            },
        }
    }
}

impl<T> Clone for Chain<T> {
    fn clone(&self) -> (r: Self)
        ensures
            r == *self,
    {
        proof {
            use_type_invariant(self);
        }
        match &self.root {
            Some(node_ref) => Chain { root: Some(node_ref.clone()), size: self.size },
            None => Chain { root: None, size: 0 },
        }
    }
}

impl<T: PartialEq> PartialEq for Chain<T> {
    fn eq(&self, other: &Self) -> (r: bool) {
        proof {
            use_type_invariant(self);
            use_type_invariant(other);
            if let Some(node) = &self.root {
                node.lemma_elems_nonempty();
            }
            if let Some(node) = &other.root {
                node.lemma_elems_nonempty();
            }
        }
        self.size == other.size && match (&self.root, &other.root) {
            (Some(node_ref), Some(other_node_ref)) => (**node_ref).eq(&**other_node_ref),
            (None, None) => true,
            _ => false,
        }
    }
}

impl<T: PartialEq> vstd::std_specs::cmp::PartialEqSpecImpl for Chain<T> {
    open spec fn obeys_eq_spec() -> bool {
        T::obeys_eq_spec()
    }

    open spec fn eq_spec(&self, other: &Self) -> bool {
        elementwise_eq(self@, other@)
    }
}

/// Looking at a chain that `cons` built from an element and a tail gives
/// back that element and that tail.
pub proof fn lemma_state_of_cons<T>(item: T, tail: Chain<T>, whole: Chain<T>)
    requires
        whole@ == seq![item] + tail@,
    ensures
        whole@.len() > 0,
        whole@[0] == item,
        whole@.skip(1) == tail@,
{
    assert(whole@.skip(1) =~= tail@);
}

/// What is left of `elems` after `n` steps, each of which goes from a
/// sequence to what follows its first element.
pub open spec fn advanced<T>(elems: Seq<T>, n: nat) -> Seq<T>
    decreases n,
{
    if n == 0 {
        elems
    } else {
        advanced(elems.skip(1), (n - 1) as nat)
    }
}

/// Advancing `n` times leaves what follows the first `n` elements.
pub proof fn lemma_advanced_is_skip<T>(elems: Seq<T>, n: nat)
    requires
        n <= elems.len(),
    ensures
        advanced(elems, n) == elems.skip(n as int),
    decreases n,
{
    if n == 0 {
        assert(elems.skip(0) =~= elems);
    } else {
        lemma_advanced_is_skip(elems.skip(1), (n - 1) as nat);
        assert(elems.skip(1).skip(n - 1) =~= elems.skip(n as int));
    }
}

/// A slice of `n` elements has `n` elements, and its elements followed by
/// what is left of the chain after `n` steps are the elements of the chain.
pub proof fn lemma_slice_then_rest<T>(chain: Chain<T>, n: nat)
    requires
        n <= chain@.len(),
    ensures
        chain@.take(n as int).len() == n,
        chain@.take(n as int) + advanced(chain@, n) == chain@,
{
    lemma_advanced_is_skip(chain@, n);
    assert(chain@.take(n as int) + chain@.skip(n as int) =~= chain@);
}

/// Equality of chains is structural: where the element type's equality is
/// plain equality of values, two chains compare equal exactly when they hold
/// the same elements in the same order, whatever slices and concatenations
/// they were built from.
pub proof fn lemma_eq_structural<T: PartialEq>(a: Chain<T>, b: Chain<T>)
    requires
        forall|x: T, y: T| #[trigger] x.eq_spec(&y) <==> x == y,
    ensures
        a.eq_spec(&b) <==> a@ == b@,
{
    if a.eq_spec(&b) {
        assert forall|i: int| 0 <= i < a@.len() implies a@[i] == b@[i] by {
            assert(a@[i].eq_spec(&b@[i]));
        }
        assert(a@ =~= b@);
    }
}

} // verus!
