//! A persistent singly-linked sequence with structural sharing.

use std::rc::Rc;
use vstd::prelude::*;
use vstd::std_specs::cmp::PartialEqSpec;

verus! {

/// Whether two sequences have the same length and, position by position,
/// elements that the element type's own equality takes for equal.
pub open spec fn elementwise_eq<T: PartialEq>(a: Seq<T>, b: Seq<T>) -> bool {
    &&& a.len() == b.len()
    &&& forall|i: int| 0 <= i < a.len() ==> #[trigger] a[i].eq_spec(&b[i])
}

/// Whether `out` holds a clone of each element of `src`, last element first.
pub open spec fn reversed_clones<T: Clone>(src: Seq<T>, out: Seq<T>) -> bool {
    &&& out.len() == src.len()
    &&& forall|i: int| 0 <= i < out.len() ==> cloned(src[src.len() - 1 - i], #[trigger] out[i])
}

/// One cell of a sequence. A cell is never changed once it has been built.
pub enum ListNode<T> {
    NonFinal(T, Rc<ListNode<T>>),
    Final(T),
}

impl<T> ListNode<T> {
    /// The elements from this cell to the last one, in order.
    pub open spec fn elems(self) -> Seq<T>
        decreases self,
    {
        match self {
            ListNode::NonFinal(head, tail) => seq![head] + tail.elems(),
            ListNode::Final(head) => seq![head],
        }
    }

    /// A cell holds at least its own element.
    pub proof fn lemma_elems_nonempty(&self)
        ensures
            self.elems().len() >= 1,
        decreases self,
    {
        match self {
            ListNode::NonFinal(_, tail) => tail.lemma_elems_nonempty(),
            ListNode::Final(_) => {},
        }
    }

    /// Whether this is the last cell.
    pub fn is_final(&self) -> (r: bool)
        ensures
            r == (self.elems().len() == 1),
            r == (self is Final),
    {
        proof {
            self.lemma_elems_nonempty();
            if let ListNode::NonFinal(_, tail) = self {
                tail.lemma_elems_nonempty();
            }
        }
        match self {
            ListNode::NonFinal(_, _) => false,
            ListNode::Final(_) => true,
        }
    }

    /// The element of this cell.
    pub fn head(&self) -> (r: &T)
        ensures
            *r == self.elems()[0],
    {
        match self {
            ListNode::NonFinal(head, _) => head,
            ListNode::Final(head) => head,
        }
    }

    /// The element of this cell, taken out of it.
    pub fn head_move(self) -> (r: T)
        ensures
            r == self.elems()[0],
    {
        match self {
            ListNode::NonFinal(head, _) => head,
            ListNode::Final(head) => head,
        }
    }

    /// The cell that follows this one. The last cell has none.
    pub fn tail(&self) -> (r: Rc<ListNode<T>>)
        requires
            self.elems().len() > 1,
        ensures
            r.elems() == self.elems().skip(1),
    {
        match self {
            ListNode::NonFinal(_, tail) => {
                assert(self.elems().skip(1) =~= tail.elems());
                tail.clone()
            },
            ListNode::Final(_) => unreached(),
        }
    }
}

impl<T: PartialEq> PartialEq for ListNode<T> {
    /// Compares two runs of cells front to back, and stops at the first
    /// position where the elements differ or where only one of the two ends.
    fn eq(&self, other: &Self) -> (r: bool)
        decreases self.elems().len(),
    {
        proof {
            self.lemma_elems_nonempty();
            other.lemma_elems_nonempty();
        }
        match (self.is_final(), other.is_final()) {
            (true, true) => self.head() == other.head(),
            (false, false) => if self.head() == other.head() {
                let rest = self.tail();
                let other_rest = other.tail();
                let r = (*rest).eq(&*other_rest);
                proof {
                    if T::obeys_eq_spec() {
                        lemma_elementwise_eq_step(self.elems(), other.elems());
                    }
                }
                r
            } else {
                false
            },
            _ => false,
        }
    }
}

impl<T: PartialEq> vstd::std_specs::cmp::PartialEqSpecImpl for ListNode<T> {
    open spec fn obeys_eq_spec() -> bool {
        T::obeys_eq_spec()
    }

    open spec fn eq_spec(&self, other: &Self) -> bool {
        elementwise_eq(self.elems(), other.elems())
    }
}

/// Two non-empty sequences are elementwise equal exactly when their first
/// elements are and what follows them is.
pub proof fn lemma_elementwise_eq_step<T: PartialEq>(a: Seq<T>, b: Seq<T>)
    requires
        a.len() > 0,
        b.len() > 0,
    ensures
        elementwise_eq(a, b) <==> (a[0].eq_spec(&b[0]) && elementwise_eq(a.skip(1), b.skip(1))),
{
    if elementwise_eq(a, b) {
        assert forall|i: int| 0 <= i < a.skip(1).len() implies #[trigger] a.skip(1)[i].eq_spec(
            &b.skip(1)[i],
        ) by {
            assert(a[i + 1].eq_spec(&b[i + 1]));
        }
    }
    if a[0].eq_spec(&b[0]) && elementwise_eq(a.skip(1), b.skip(1)) {
        assert forall|i: int| 0 <= i < a.len() implies #[trigger] a[i].eq_spec(&b[i]) by {
            if i > 0 {
                assert(a.skip(1)[i - 1].eq_spec(&b.skip(1)[i - 1]));
            }
        }
    }
}

/// What a sequence looks like from its front: either a first element and the
/// sequence after it, or nothing.
pub enum ListState<'a, T> {
    NonEmptyList(&'a T, List<T>),
    EmptyList,
}

/// A persistent sequence. Clones share their cells.
pub struct List<T> {
    root: Option<Rc<ListNode<T>>>,
}

impl<T> View for List<T> {
    type V = Seq<T>;

    /// The elements of the sequence, first element first.
    closed spec fn view(&self) -> Seq<T> {
        match self.root {
            Some(node) => node.elems(),
            None => Seq::empty(),
        }
    }
}

impl<T> List<T> {
    /// The sequence without elements.
    pub fn empty() -> (r: List<T>)
        ensures
            r@ == Seq::<T>::empty(),
    {
        List { root: None }
    }

    /// Whether the sequence has no elements.
    pub fn is_empty(&self) -> (r: bool)
        ensures
            r == (self@.len() == 0),
    {
        proof {
            if let Some(node) = &self.root {
                node.lemma_elems_nonempty();
            }
        }
        self.root.is_none()
    }

    /// The first element and the sequence after it, or nothing where the
    /// sequence is empty.
    pub fn state(&self) -> (r: ListState<'_, T>)
        ensures
            self@.len() == 0 ==> r is EmptyList,
            self@.len() > 0 ==> (r matches ListState::NonEmptyList(head, tail) && *head == self@[0]
                && tail@ == self@.skip(1)),
    {
        match &self.root {
            Some(node_ref) => {
                proof {
                    node_ref.lemma_elems_nonempty();
                }
                if node_ref.is_final() {
                    assert(self@.skip(1) =~= Seq::<T>::empty());
                    ListState::NonEmptyList(node_ref.head(), List { root: None })
                } else {
                    ListState::NonEmptyList(node_ref.head(), List { root: Some(node_ref.tail()) })
                }
            },
            None => ListState::EmptyList,
        }
    }

    /// The sequence that starts with `item` and goes on with `tail`.
    pub fn cons(item: T, tail: List<T>) -> (r: List<T>)
        ensures
            r@ == seq![item] + tail@,
    {
        match tail.root {
            Some(node_ref) => List { root: Some(Rc::new(ListNode::NonFinal(item, node_ref))) },
            None => List { root: Some(Rc::new(ListNode::Final(item))) },
        }
    }

    /// Clones the elements into a vector, last element first.
    pub fn reverse_into_vec(self) -> (r: Vec<T>) where T: Clone
        ensures
            reversed_clones(self@, r@),
    {
        let ghost all = self@;
        let mut rest: List<T> = self;
        let mut forward: Vec<T> = Vec::new();
        loop
            invariant
                forward@.len() + rest@.len() == all.len(),
                rest@ == all.skip(forward@.len() as int),
                forall|i: int| 0 <= i < forward@.len() ==> cloned(all[i], #[trigger] forward@[i]),
            ensures
                rest@.len() == 0,
            decreases rest@.len(),
        {
            match rest.state() {
                ListState::NonEmptyList(head, tail) => {
                    forward.push(head.clone());
                    proof {
                        assert(tail@ =~= all.skip(forward@.len() as int));
                    }
                    rest = tail;
                },
                ListState::EmptyList => break ,
            }
        }
        let mut result: Vec<T> = Vec::new();
        while forward.len() > 0
            invariant
                forward@.len() + result@.len() == all.len(),
                forall|i: int| 0 <= i < forward@.len() ==> cloned(all[i], #[trigger] forward@[i]),
                forall|i: int|
                    0 <= i < result@.len() ==> cloned(all[all.len() - 1 - i], #[trigger] result@[i]),
            decreases forward@.len(),
        {
            match forward.pop() {
                Some(item) => result.push(item),
                None => {},
            }
        }
        result
    }
}

impl<T> Clone for List<T> {
    fn clone(&self) -> (r: Self)
        ensures
            r@ == self@,
    {
        match &self.root {
            Some(node_ref) => List { root: Some(node_ref.clone()) },
            None => List { root: None },
        }
    }
}

impl<T> Default for List<T> {
    fn default() -> (r: Self)
        ensures
            r@ == Seq::<T>::empty(),
    {
        List { root: None }
    }
}

impl<T: PartialEq> PartialEq for List<T> {
    fn eq(&self, other: &Self) -> (r: bool) {
        proof {
            if let Some(node) = &self.root {
                node.lemma_elems_nonempty();
            }
            if let Some(node) = &other.root {
                node.lemma_elems_nonempty();
            }
        }
        match (&self.root, &other.root) {
            (Some(node_ref), Some(other_node_ref)) => (**node_ref).eq(&**other_node_ref),
            (None, None) => true,
            _ => false,
        }
    }
}

impl<T: PartialEq> vstd::std_specs::cmp::PartialEqSpecImpl for List<T> {
    open spec fn obeys_eq_spec() -> bool {
        T::obeys_eq_spec()
    }

    open spec fn eq_spec(&self, other: &Self) -> bool {
        elementwise_eq(self@, other@)
    }
}

/// Looking at a sequence that `cons` built from an element and a tail gives
/// back that element and that tail.
pub proof fn lemma_state_of_cons<T>(item: T, tail: List<T>, whole: List<T>)
    requires
        whole@ == seq![item] + tail@,
    ensures
        whole@.len() > 0,
        whole@[0] == item,
        whole@.skip(1) == tail@,
{
    assert(whole@.skip(1) =~= tail@);
}

/// Equality of sequences is structural: where the element type's equality
/// is plain equality of values, two sequences compare equal exactly when they
/// hold the same elements in the same order, however they were built.
pub proof fn lemma_eq_structural<T: PartialEq>(a: List<T>, b: List<T>)
    requires
        forall|x: T, y: T| #[trigger] x.eq_spec(&y) <==> x == y,
    ensures
        a.eq_spec(&b) <==> a@ == b@,
{
    if a.eq_spec(&b) {
        assert forall|i: int| 0 <= i < a@.len() implies a@[i] == b@[i] by {
            assert(a@[i].eq_spec(&b@[i]));
        }
        assert(a@ =~= b@);
    }
}

/// Equality of sequences is reflexive where the element type's equality is.
pub proof fn lemma_eq_reflexive<T: PartialEq>(a: List<T>)
    requires
        forall|x: T| #[trigger] x.eq_spec(&x),
    ensures
        a.eq_spec(&a),
{
}

} // verus!
