//! A singly linked list with head insertion and removal at both ends,
//! modelled as the sequence of its values from the head.

use vstd::prelude::*;

verus! {

pub struct Node<T> {
    pub value: T,
    pub next: Option<Box<Node<T>>>,
}

pub struct LinkedList<T> {
    head: Option<Box<Node<T>>>,
    size: usize,
}

impl<T> Node<T> {
    /// The values of the chain starting at this node, in order.
    pub open spec fn seq_of(self) -> Seq<T>
        decreases self,
    {
        seq![self.value] + match self.next {
            Some(n) => n.seq_of(),
            None => Seq::empty(),
        }
    }

    pub fn new(value: T) -> (n: Box<Self>)
        ensures
            n.seq_of() == seq![value],
    {
        let n = Box::new(Self { value, next: None });
        proof {
            assert(n.seq_of() =~= seq![n.value]);
        }
        n
    }
}

/// The values of an optional chain: empty when there is no node.
pub open spec fn chain_seq<T>(node: Option<Box<Node<T>>>) -> Seq<T> {
    match node {
        Some(n) => n.seq_of(),
        None => Seq::empty(),
    }
}

fn push_back_rec<T>(n: &mut Node<T>, value: T)
    ensures
        final(n).seq_of() == old(n).seq_of().push(value),
    decreases *old(n),
{
    match n.next.take() {
        None => {
            n.next = Some(Node::new(value));
        },
        Some(mut m) => {
            push_back_rec(&mut *m, value);
            n.next = Some(m);
        },
    }
    proof {
        assert(n.seq_of() =~= old(n).seq_of().push(value));
    }
}

fn get_rec<'a, T>(n: &'a Node<T>, index: usize) -> (r: &'a T)
    requires
        index < n.seq_of().len(),
    ensures
        *r == n.seq_of()[index as int],
    decreases *n,
{
    if index == 0 {
        &n.value
    } else {
        match &n.next {
            Some(m) => get_rec(m, index - 1),
            None => {
                proof {
                    assert(false);
                }
                &n.value
            },
        }
    }
}

fn set_rec<T>(n: &mut Node<T>, index: usize, value: T) -> (prev: T)
    requires
        index < old(n).seq_of().len(),
    ensures
        prev == old(n).seq_of()[index as int],
        final(n).seq_of() == old(n).seq_of().update(index as int, value),
    decreases *old(n),
{
    if index == 0 {
        let mut v = value;
        core::mem::swap(&mut n.value, &mut v);
        proof {
            assert(n.seq_of() =~= old(n).seq_of().update(index as int, n.value));
        }
        v
    } else {
        match n.next.take() {
            Some(mut m) => {
                let prev = set_rec(&mut *m, index - 1, value);
                n.next = Some(m);
                proof {
                    assert(n.seq_of() =~= old(n).seq_of().update(
                        index as int,
                        n.next.unwrap().seq_of()[index - 1],
                    ));
                }
                prev
            },
            None => {
                proof {
                    assert(false);
                }
                value
            },
        }
    }
}

fn pop_last<T>(node: &mut Option<Box<Node<T>>>) -> (r: Option<T>)
    ensures
        match r {
            Some(v) => {
                &&& chain_seq(*old(node)).len() > 0
                &&& v == chain_seq(*old(node)).last()
                &&& chain_seq(*final(node)) == chain_seq(*old(node)).drop_last()
            },
            None => {
                &&& chain_seq(*old(node)).len() == 0
                &&& *final(node) == *old(node)
            },
        },
    decreases *old(node),
{
    match node.take() {
        None => None,
        Some(mut b) => {
            if b.next.is_none() {
                proof {
                    assert(chain_seq(*old(node)).drop_last() =~= Seq::<T>::empty());
                }
                let n = *b;
                Some(n.value)
            } else {
                let r = pop_last(&mut b.next);
                *node = Some(b);
                proof {
                    assert(chain_seq(*final(node)) =~= chain_seq(*old(node)).drop_last());
                    assert(chain_seq(*old(node)).last() == chain_seq(
                        old(node).unwrap().next,
                    ).last());
                }
                r
            }
        },
    }
}

impl<T> View for LinkedList<T> {
    type V = Seq<T>;

    closed spec fn view(&self) -> Seq<T> {
        chain_seq(self.head)
    }
}

impl<T> Default for LinkedList<T> {
    /// An empty list.
    fn default() -> (r: Self)
        ensures
            r.wf(),
            r@ == Seq::<T>::empty(),
    {
        Self::new()
    }
}

impl<T> LinkedList<T> {
    /// The stored length agrees with the chain.
    pub closed spec fn wf(self) -> bool {
        self.size == self@.len()
    }

    pub fn new() -> (r: Self)
        ensures
            r.wf(),
            r@ == Seq::<T>::empty(),
    {
        Self { head: None, size: 0 }
    }

    /// Push a `value` to the end of the list.
    pub fn push_back(&mut self, value: T)
        requires
            old(self).wf(),
            old(self)@.len() < usize::MAX,
        ensures
            final(self).wf(),
            final(self)@ == old(self)@.push(value),
    {
        self.size = self.size + 1;
        match self.head.take() {
            None => {
                self.head = Some(Node::new(value));
            },
            Some(mut h) => {
                push_back_rec(&mut *h, value);
                self.head = Some(h);
            },
        }
    }

    /// Push a `value` to the start of the list, making the value the new
    /// head.
    pub fn push_front(&mut self, value: T)
        requires
            old(self).wf(),
            old(self)@.len() < usize::MAX,
        ensures
            final(self).wf(),
            final(self)@ == seq![value] + old(self)@,
    {
        self.size = self.size + 1;
        let next = self.head.take();
        self.head = Some(Box::new(Node { value, next }));
        proof {
            assert(self@ =~= seq![old(self)@[0]].update(0, self.head.unwrap().value) + old(
                self,
            )@) by {
                assert(self@ == self.head.unwrap().seq_of());
            }
            assert(self@ =~= seq![self.head.unwrap().value] + old(self)@);
        }
    }

    /// Get an **immutable** reference to the element `index` places from
    /// the head.
    pub fn get(&self, index: usize) -> (r: Option<&T>)
        requires
            self.wf(),
        ensures
            match r {
                Some(v) => index < self@.len() && *v == self@[index as int],
                None => index >= self@.len(),
            },
    {
        if index >= self.size {
            return None;
        }
        match &self.head {
            Some(h) => Some(get_rec(h, index)),
            None => {
                proof {
                    assert(false);
                }
                None
            },
        }
    }

    /// Replace the element `index` places from the head with `value`,
    /// returning the previous element; the list is unchanged (and `value`
    /// discarded) when `index` is out of range.
    pub fn get_mut(&mut self, index: usize, value: T) -> (r: Option<T>)
        requires
            old(self).wf(),
        ensures
            final(self).wf(),
            match r {
                Some(prev) => {
                    &&& index < old(self)@.len()
                    &&& prev == old(self)@[index as int]
                    &&& final(self)@ == old(self)@.update(index as int, value)
                },
                None => index >= old(self)@.len() && *final(self) == *old(self),
            },
    {
        if index >= self.size {
            return None;
        }
        match self.head.take() {
            Some(mut h) => {
                let prev = set_rec(&mut *h, index, value);
                self.head = Some(h);
                Some(prev)
            },
            None => {
                proof {
                    assert(false);
                }
                None
            },
        }
    }

    /// Get the length of the list.
    pub fn len(&self) -> (r: usize)
        requires
            self.wf(),
        ensures
            r == self@.len(),
    {
        self.size
    }

    /// Is the list empty?
    pub fn is_empty(&self) -> (r: bool)
        requires
            self.wf(),
        ensures
            r == (self@.len() == 0),
    {
        self.size == 0
    }

    /// Remove the head of the list, returning its value.
    pub fn pop_head(&mut self) -> (r: Option<T>)
        requires
            old(self).wf(),
        ensures
            final(self).wf(),
            match r {
                Some(v) => {
                    &&& old(self)@.len() > 0
                    &&& v == old(self)@[0]
                    &&& final(self)@ == old(self)@.drop_first()
                },
                None => old(self)@.len() == 0 && *final(self) == *old(self),
            },
    {
        if self.size == 0 {
            return None;
        }
        match self.head.take() {
            Some(h) => {
                let n = *h;
                self.head = n.next;
                self.size = self.size - 1;
                proof {
                    assert(final(self)@ =~= old(self)@.drop_first());
                }
                Some(n.value)
            },
            None => {
                proof {
                    assert(false);
                }
                None
            },
        }
    }

    /// Remove the element furthest from the head, returning it.
    pub fn pop_back(&mut self) -> (r: Option<T>)
        requires
            old(self).wf(),
        ensures
            final(self).wf(),
            match r {
                Some(v) => {
                    &&& old(self)@.len() > 0
                    &&& v == old(self)@.last()
                    &&& final(self)@ == old(self)@.drop_last()
                },
                None => old(self)@.len() == 0 && *final(self) == *old(self),
            },
    {
        if self.size == 0 {
            return None;
        }
        let r = pop_last(&mut self.head);
        self.size = self.size - 1;
        r
    }
}

} // verus!
