//! A singly-linked list with a cached length and a borrowing forward iterator.
//!
//! The list owns its head node, which transitively owns the whole chain.
//! Elements are pushed and popped at the head, so `from_sequence` exposes
//! its input in reverse of the order the input produced it.

use vstd::prelude::*;

verus! {

/// A singly-linked sequence of owned nodes with a head link and a cached
/// length. Its view is the sequence of elements in head-to-tail order.
pub struct List<A> {
    head: Link<A>,
    length: usize,
}

struct Node<A> {
    next: Link<A>,
    value: A,
}

type Link<A> = Option<Box<Node<A>>>;

/// The elements reachable from a link, in head-to-tail order.
spec fn link_view<A>(link: Link<A>) -> Seq<A>
    decreases link,
{
    match link {
        None => Seq::empty(),
        Some(node) => seq![node.value] + link_view(node.next),
    }
}

impl<A> View for List<A> {
    type V = Seq<A>;

    closed spec fn view(&self) -> Seq<A> {
        link_view(self.head)
    }
}

impl<A> List<A> {
    /// The cached length always counts exactly the reachable nodes.
    #[verifier::type_invariant]
    spec fn wf(self) -> bool {
        self.length == link_view(self.head).len()
    }

    /// Creates an empty list.
    pub fn new() -> (list: List<A>)
        ensures
            list@ == Seq::<A>::empty(),
    {
        List { head: None, length: 0 }
    }

    /// The number of elements currently reachable from the head.
    pub fn len(&self) -> (n: usize)
        ensures
            n == self@.len(),
    {
        proof {
            use_type_invariant(self);
        }
        self.length
    }

    /// Splices a new node owning `val` into the head position; the previous
    /// head, if any, becomes the second element.
    pub fn push(&mut self, val: A)
        requires
            old(self)@.len() < usize::MAX,
        ensures
            final(self)@ == seq![val] + old(self)@,
    {
        proof {
            use_type_invariant(&*self);
        }
        let mut taken = List { head: None, length: 0 };
        std::mem::swap(&mut taken, self);
        let List { head, length } = taken;
        *self = List {
            head: Some(Box::new(Node { next: head, value: val })),
            length: length + 1,
        };
    }

    /// Detaches the head node, if any, and returns its value.
    pub fn pop(&mut self) -> (popped: Option<A>)
        ensures
            old(self)@.len() == 0 ==> popped is None && final(self)@ == old(self)@,
            old(self)@.len() > 0 ==> popped == Some(old(self)@[0]) && final(self)@ == old(
                self,
            )@.drop_first(),
    {
        proof {
            use_type_invariant(&*self);
        }
        let mut taken = List { head: None, length: 0 };
        std::mem::swap(&mut taken, self);
        let List { head, length } = taken;
        match head {
            None => {
                *self = List { head: None, length };
                None
            },
            Some(node) => {
                let boxed = *node;
                let Node { next, value } = boxed;
                *self = List { head: next, length: length - 1 };
                proof {
                    assert(self@ =~= old(self)@.drop_first());
                }
                Some(value)
            },
        }
    }
}

impl<A> List<A> {
    /// Consumes a finite sequence, pushing each element at the head; the
    /// resulting head-to-tail order is the reverse of the input's order.
    pub fn from_sequence(elems: Vec<A>) -> (list: List<A>)
        ensures
            list@ == elems@.reverse(),
    {
        let ghost orig = elems@;
        let mut elems = elems;
        let mut list: List<A> = List::new();
        let n = elems.len();
        let mut i: usize = 0;
        while i < n
            invariant
                n == orig.len(),
                i <= n,
                elems@ == orig.skip(i as int),
                list@ == orig.take(i as int).reverse(),
            decreases n - i,
        {
            let e = elems.remove(0);
            list.push(e);
            i = i + 1;
            proof {
                assert(elems@ =~= orig.skip(i as int));
                assert(list@ =~= orig.take(i as int).reverse());
            }
        }
        proof {
            assert(orig.take(n as int) =~= orig);
        }
        list
    }

    /// A borrowing forward iterator over the list, starting at the head.
    pub fn iter<'a>(&'a self) -> (it: Items<'a, A>)
        ensures
            it@ == self@,
    {
        proof {
            use_type_invariant(self);
        }
        Items { head: &self.head, nelem: self.length }
    }
}

/// How many elements an iterator whose remaining elements are `items` still
/// yields, counted one advance at a time as the iterator's contract drives
/// it: one element whenever elements remain, then permanently none.
pub open spec fn yield_count<A>(items: Seq<A>) -> nat
    decreases items.len(),
{
    if items.len() == 0 {
        0
    } else {
        1 + yield_count(items.drop_first())
    }
}

/// Law: an iterator yields exactly as many elements as remain in its view,
/// so a fresh iterator of a list — its view is the list's whole view — ends
/// after exactly `len()` elements.
pub proof fn lemma_len_counts_iteration<A>(items: Seq<A>)
    ensures
        yield_count(items) == items.len(),
    decreases items.len(),
{
    if items.len() > 0 {
        lemma_len_counts_iteration(items.drop_first());
    }
}

/// The view a list ends with after the values of `pushed` are pushed, first
/// to last, into a list whose view was `init`. Each step is exactly what
/// `push` ensures.
pub open spec fn view_after_pushes<A>(init: Seq<A>, pushed: Seq<A>) -> Seq<A>
    decreases pushed.len(),
{
    if pushed.len() == 0 {
        init
    } else {
        view_after_pushes(seq![pushed[0]] + init, pushed.drop_first())
    }
}

/// Law: pushing values in order leaves the list holding them in reverse
/// order, ahead of whatever it already held.
pub proof fn lemma_pushes_reverse<A>(init: Seq<A>, pushed: Seq<A>)
    ensures
        view_after_pushes(init, pushed) == pushed.reverse() + init,
    decreases pushed.len(),
{
    if pushed.len() == 0 {
        assert(view_after_pushes(init, pushed) =~= pushed.reverse() + init);
    } else {
        lemma_pushes_reverse(seq![pushed[0]] + init, pushed.drop_first());
        assert(pushed.drop_first().reverse() + (seq![pushed[0]] + init) =~= pushed.reverse()
            + init);
    }
}

/// Law: after values are pushed, first to last, into an initially empty
/// list, the element reached by the pop at position `i` — `pop` returns the
/// view's first element and drops it — is the pushed value at position
/// `len - 1 - i`: last in, first out.
pub proof fn lemma_push_then_pop_order<A>(pushed: Seq<A>, i: int)
    requires
        0 <= i < pushed.len(),
    ensures
        view_after_pushes(Seq::empty(), pushed)[i] == pushed[pushed.len() - 1 - i],
{
    lemma_pushes_reverse(Seq::<A>::empty(), pushed);
    assert(pushed.reverse() + Seq::empty() =~= pushed.reverse());
}

/// A lazy borrowing iterator over a list. It holds a shared reference to the
/// current link and a remaining-element count; its view is the sequence of
/// elements it has yet to yield.
pub struct Items<'a, A> {
    head: &'a Link<A>,
    nelem: usize,
}

impl<'a, A> View for Items<'a, A> {
    type V = Seq<A>;

    closed spec fn view(&self) -> Seq<A> {
        link_view(*self.head).take(self.nelem as int)
    }
}

impl<'a, A> Items<'a, A> {
    /// The remaining count never exceeds the elements reachable from the
    /// current link.
    #[verifier::type_invariant]
    spec fn wf(self) -> bool {
        self.nelem <= link_view(*self.head).len()
    }

    /// Yields a reference to the next element in head-to-tail order, or
    /// `None`, permanently, once every element has been yielded.
    pub fn next(&mut self) -> (item: Option<&'a A>)
        ensures
            old(self)@.len() == 0 ==> item is None && final(self)@ == old(self)@,
            old(self)@.len() > 0 ==> item == Some(&old(self)@[0]) && final(self)@ == old(
                self,
            )@.drop_first(),
    {
        proof {
            use_type_invariant(&*self);
        }
        if self.nelem == 0 {
            return None;
        }
        let current: &'a Link<A> = self.head;
        match current {
            None => None,
            Some(node) => {
                let item = Some(&node.value);
                *self = Items { head: &node.next, nelem: self.nelem - 1 };
                proof {
                    assert(self@ =~= old(self)@.drop_first());
                }
                item
            },
        }
    }

    /// The exact number of elements left to yield, as both bounds of a hint.
    pub fn size_hint(&self) -> (hint: (usize, Option<usize>))
        ensures
            hint.0 == self@.len(),
            hint.1 == Some(hint.0),
    {
        proof {
            use_type_invariant(self);
        }
        (self.nelem, Some(self.nelem))
    }
}

} // verus!
