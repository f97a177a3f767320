use vstd::prelude::*;

use crate::node::SinglyNode;

verus! {

/// A singly-linked list whose nodes are kept in an arena of slots.
///
/// The chain starts at the slot named by `head` and follows each node's `next`
/// link; `tail` caches the slot of the last node so that appending takes
/// constant time. Slots that no node occupies are listed in `free` and are
/// reused before the arena grows. The ghost `chain` lists the occupied slots
/// from front to back.
pub struct SinglyList<T> {
    slots: Vec<Option<SinglyNode<T>>>,
    free: Vec<usize>,
    head: Option<usize>,
    tail: Option<usize>,
    size: usize,
    chain: Ghost<Seq<usize>>,
}

/// The node held in slot `s`.
spec fn node_in<T>(slots: Seq<Option<SinglyNode<T>>>, s: usize) -> SinglyNode<T> {
    slots[s as int].unwrap()
}

/// The slots listed in `chain` are distinct and occupied, and each node links
/// to the slot listed after its own; the last links nowhere.
spec fn chain_linked<T>(slots: Seq<Option<SinglyNode<T>>>, chain: Seq<usize>) -> bool {
    &&& forall|i: int|
        0 <= i < chain.len() ==> (#[trigger] chain[i]) < slots.len() && slots[chain[i] as int] is Some
    &&& forall|i: int, j: int| 0 <= i < j < chain.len() ==> chain[i] != chain[j]
    &&& forall|i: int|
        0 <= i < chain.len() - 1 ==> (#[trigger] node_in(slots, chain[i])).next == Some(chain[i + 1])
    &&& chain.len() > 0 ==> node_in(slots, chain.last()).next is None
}

/// The slots listed in `free` are distinct and empty.
spec fn free_vacant<T>(slots: Seq<Option<SinglyNode<T>>>, free: Seq<usize>) -> bool {
    &&& forall|k: int|
        0 <= k < free.len() ==> (#[trigger] free[k]) < slots.len() && slots[free[k] as int] is None
    &&& forall|k: int, l: int| 0 <= k < l < free.len() ==> free[k] != free[l]
}

/// The values of the nodes in the slots listed in `chain`, in that order.
spec fn values_of<T>(slots: Seq<Option<SinglyNode<T>>>, chain: Seq<usize>) -> Seq<T> {
    chain.map_values(|s: usize| node_in(slots, s).value)
}

/// Two arenas that agree on every slot listed in `chain` hold the same linked
/// chain there, with the same values.
proof fn lemma_chain_frame<T>(
    a: Seq<Option<SinglyNode<T>>>,
    b: Seq<Option<SinglyNode<T>>>,
    chain: Seq<usize>,
)
    requires
        chain_linked(a, chain),
        a.len() <= b.len(),
        forall|i: int| 0 <= i < chain.len() ==> b[#[trigger] chain[i] as int] == a[chain[i] as int],
    ensures
        chain_linked(b, chain),
        values_of(b, chain) == values_of(a, chain),
{
    assert forall|i: int| 0 <= i < chain.len() - 1 implies (#[trigger] node_in(b, chain[i])).next
        == Some(chain[i + 1]) by {
        assert(b[chain[i] as int] == a[chain[i] as int]);
        assert(node_in(a, chain[i]).next == Some(chain[i + 1]));
    }
    if chain.len() > 0 {
        assert(b[chain[chain.len() - 1] as int] == a[chain[chain.len() - 1] as int]);
    }
    assert(values_of(b, chain) =~= values_of(a, chain));
}

/// Linking a new node in slot `s` in after the node at position `pos - 1`,
/// when `s` already links to the node at position `pos`, yields the chain with
/// `s` inserted at `pos`.
proof fn lemma_link_in<T>(
    filled: Seq<Option<SinglyNode<T>>>,
    slots: Seq<Option<SinglyNode<T>>>,
    c: Seq<usize>,
    pos: int,
    s: usize,
)
    requires
        chain_linked(filled, c),
        0 < pos < c.len(),
        s < filled.len(),
        filled[s as int] is Some,
        !c.contains(s),
        node_in(filled, s).next == Some(c[pos]),
        slots == filled.update(
            c[pos - 1] as int,
            Some(SinglyNode::relinked(node_in(filled, c[pos - 1]), Some(s))),
        ),
    ensures
        chain_linked(slots, c.insert(pos, s)),
        values_of(slots, c.insert(pos, s)) == values_of(filled, c).insert(
            pos,
            node_in(filled, s).value,
        ),
{
    let n = c.insert(pos, s);
    let prev = c[pos - 1];
    assert(prev != s) by {
        assert(c.contains(prev));
    }
    assert forall|i: int| 0 <= i < c.len() implies slots[c[i] as int] is Some && node_in(
        slots,
        c[i],
    ).value == node_in(filled, c[i]).value && c[i] != s by {
        assert(c.contains(c[i]));
    }
    assert forall|i: int, j: int| 0 <= i < j < n.len() implies n[i] != n[j] by {
        if i == pos {
            assert(c.contains(n[j]));
        }
        if j == pos {
            assert(c.contains(n[i]));
        }
    }
    assert forall|i: int| 0 <= i < n.len() - 1 implies (#[trigger] node_in(slots, n[i])).next == Some(
        n[i + 1],
    ) by {
        if i < pos - 1 {
            assert(node_in(filled, c[i]).next == Some(c[i + 1]));
        } else if i > pos {
            assert(node_in(filled, c[i - 1]).next == Some(c[i]));
        }
    }
    assert(n.last() == c.last());
    assert(c.last() != prev);
    assert(values_of(slots, n) =~= values_of(filled, c).insert(pos, node_in(filled, s).value));
}

impl<T> View for SinglyList<T> {
    type V = Seq<T>;

    /// The elements from front to back.
    closed spec fn view(&self) -> Seq<T> {
        values_of(self.slots@, self.chain@)
    }
}

impl<T> SinglyList<T> {
    /// The list's structure is consistent: the chain is linked, `head`,
    /// `tail` and `size` agree with it, and every slot is either in the chain
    /// or free.
    pub closed spec fn wf(&self) -> bool {
        &&& chain_linked(self.slots@, self.chain@)
        &&& free_vacant(self.slots@, self.free@)
        &&& self.size == self.chain@.len()
        &&& self.slots@.len() == self.chain@.len() + self.free@.len()
        &&& self.head == (if self.chain@.len() == 0 {
            None
        } else {
            Some(self.chain@[0])
        })
        &&& self.tail == (if self.chain@.len() == 0 {
            None
        } else {
            Some(self.chain@.last())
        })
    }

    /// An empty list.
    pub fn new() -> (r: Self)
        ensures
            r.wf(),
            r@ == Seq::<T>::empty(),
    {
        let r = SinglyList {
            slots: Vec::new(),
            free: Vec::new(),
            head: None,
            tail: None,
            size: 0,
            chain: Ghost(Seq::empty()),
        };
        assert(r@ =~= Seq::<T>::empty());
        r
    }

    /// The number of elements.
    pub fn len(&self) -> (r: usize)
        requires
            self.wf(),
        ensures
            r == self@.len(),
    {
        self.size
    }

    /// Whether the list holds no element.
    pub fn is_empty(&self) -> (r: bool)
        requires
            self.wf(),
        ensures
            r == (self@.len() == 0),
    {
        self.size == 0
    }

    /// The slot of the node at position `k`, found by walking from the front.
    fn slot_at(&self, k: usize) -> (s: usize)
        requires
            self.wf(),
            k < self@.len(),
        ensures
            s == self.chain@[k as int],
    {
        let mut cur = self.head.unwrap();
        let mut i: usize = 0;
        while i < k
            invariant
                self.wf(),
                k < self.chain@.len(),
                i <= k,
                cur == self.chain@[i as int],
            decreases k - i,
        {
            assert(node_in(self.slots@, self.chain@[i as int]).next == Some(self.chain@[i + 1]));
            cur = self.slots[cur].as_ref().unwrap().next.unwrap();
            i = i + 1;
        }
        cur
    }

    /// Places `node` in a free slot, growing the arena when none is free. The
    /// chain is left as it was; the caller links the new slot in.
    fn allocate(&mut self, node: SinglyNode<T>) -> (s: usize)
        requires
            old(self).wf(),
            old(self)@.len() < usize::MAX,
        ensures
            s < final(self).slots@.len(),
            final(self).slots@[s as int] == Some(node),
            !old(self).chain@.contains(s),
            chain_linked(final(self).slots@, old(self).chain@),
            values_of(final(self).slots@, old(self).chain@) == old(self)@,
            free_vacant(final(self).slots@, final(self).free@),
            final(self).slots@.len() == old(self).chain@.len() + 1 + final(self).free@.len(),
            final(self).head == old(self).head,
            final(self).tail == old(self).tail,
            final(self).size == old(self).size,
            final(self).chain == old(self).chain,
    {
        let ghost before = self.slots@;
        let ghost c = self.chain@;
        let s = match self.free.pop() {
            Some(s) => {
                proof {
                    assert(before[s as int] is None);
                }
                self.slots.set(s, Some(node));
                s
            },
            None => {
                let s = self.slots.len();
                self.slots.push(Some(node));
                s
            },
        };
        proof {
            assert forall|i: int| 0 <= i < c.len() implies c[i] != s by {
                assert(c[i] < before.len() && before[c[i] as int] is Some);
            }
            assert(!c.contains(s));
            lemma_chain_frame(before, self.slots@, c);
        }
        s
    }

    /// Points the node in slot `at` to `next`, keeping its value.
    fn set_next(&mut self, at: usize, next: Option<usize>)
        requires
            at < old(self).slots@.len(),
            old(self).slots@[at as int] is Some,
            free_vacant(old(self).slots@, old(self).free@),
        ensures
            final(self).slots@ == old(self).slots@.update(
                at as int,
                Some(SinglyNode::relinked(node_in(old(self).slots@, at), next)),
            ),
            free_vacant(final(self).slots@, final(self).free@),
            final(self).free == old(self).free,
            final(self).head == old(self).head,
            final(self).tail == old(self).tail,
            final(self).size == old(self).size,
            final(self).chain == old(self).chain,
    {
        let mut slot: Option<SinglyNode<T>> = None;
        self.slots.set_and_swap(at, &mut slot);
        let mut node = slot.unwrap();
        node.next = next;
        self.slots.set(at, Some(node));
        proof {
            let f = self.free@;
            assert forall|k: int| 0 <= k < f.len() implies f[k] != at by {
                assert(old(self).slots@[f[k] as int] is None);
            }
        }
    }

    /// Replaces the value of the node in slot `at`, keeping its link.
    fn set_value(&mut self, at: usize, value: T)
        requires
            at < old(self).slots@.len(),
            old(self).slots@[at as int] is Some,
        ensures
            final(self).slots@ == old(self).slots@.update(
                at as int,
                Some(SinglyNode::revalued(node_in(old(self).slots@, at), value)),
            ),
            final(self).free == old(self).free,
            final(self).head == old(self).head,
            final(self).tail == old(self).tail,
            final(self).size == old(self).size,
            final(self).chain == old(self).chain,
    {
        let mut slot: Option<SinglyNode<T>> = None;
        self.slots.set_and_swap(at, &mut slot);
        let mut node = slot.unwrap();
        node.value = value;
        self.slots.set(at, Some(node));
    }

    /// Empties slot `at`, lists it as free, and hands back the node it held.
    fn release(&mut self, at: usize) -> (node: SinglyNode<T>)
        requires
            at < old(self).slots@.len(),
            old(self).slots@[at as int] is Some,
            free_vacant(old(self).slots@, old(self).free@),
        ensures
            node == node_in(old(self).slots@, at),
            final(self).slots@ == old(self).slots@.update(at as int, None),
            final(self).free@ == old(self).free@.push(at),
            free_vacant(final(self).slots@, final(self).free@),
            final(self).head == old(self).head,
            final(self).tail == old(self).tail,
            final(self).size == old(self).size,
            final(self).chain == old(self).chain,
    {
        let ghost before = self.slots@;
        let ghost f = self.free@;
        let mut slot: Option<SinglyNode<T>> = None;
        self.slots.set_and_swap(at, &mut slot);
        self.free.push(at);
        proof {
            assert forall|k: int| 0 <= k < f.len() implies f[k] != at by {
                assert(before[f[k] as int] is None);
            }
        }
        slot.unwrap()
    }

    /// Prepends `value` as the new first element.
    pub fn push_front(&mut self, value: T)
        requires
            old(self).wf(),
            old(self)@.len() < usize::MAX,
        ensures
            final(self).wf(),
            final(self)@ == seq![value] + old(self)@,
    {
        let ghost c = self.chain@;
        let s = self.allocate(SinglyNode::new(value, self.head));
        self.head = Some(s);
        if self.size == 0 {
            self.tail = Some(s);
        }
        self.size = self.size + 1;
        self.chain = Ghost(seq![s] + c);
        proof {
            let n = self.chain@;
            assert(n[0] == s);
            assert forall|i: int| 0 <= i < c.len() implies n[i + 1] == c[i] by {}
            assert forall|i: int, j: int| 0 <= i < j < n.len() implies n[i] != n[j] by {
                if i == 0 {
                    assert(c.contains(n[j]));
                }
            }
            assert forall|i: int| 0 <= i < n.len() - 1 implies (#[trigger] node_in(self.slots@, n[i])).next
                == Some(n[i + 1]) by {
                if i > 0 {
                    assert(node_in(self.slots@, c[i - 1]).next == Some(c[i]));
                }
            }
            if c.len() > 0 {
                assert(n.last() == c.last());
            }
            assert(self@ =~= seq![value] + old(self)@);
        }
    }

    /// Appends `value` as the new last element, through the cached tail.
    pub fn push_back(&mut self, value: T)
        requires
            old(self).wf(),
            old(self)@.len() < usize::MAX,
        ensures
            final(self).wf(),
            final(self)@ == old(self)@.push(value),
    {
        let ghost c = self.chain@;
        let s = self.allocate(SinglyNode::new(value, None));
        let ghost filled = self.slots@;
        match self.tail {
            None => {
                self.head = Some(s);
            },
            Some(t) => {
                self.set_next(t, Some(s));
            },
        }
        self.tail = Some(s);
        self.size = self.size + 1;
        self.chain = Ghost(c.push(s));
        proof {
            let n = self.chain@;
            let slots = self.slots@;
            assert forall|i: int| 0 <= i < c.len() implies n[i] == c[i] && slots[c[i] as int]
                is Some && node_in(slots, c[i]).value == node_in(filled, c[i]).value by {}
            assert(n.last() == s);
            assert(slots[s as int] == filled[s as int]) by {
                if c.len() > 0 {
                    assert(c.contains(c.last()));
                }
            }
            assert forall|i: int, j: int| 0 <= i < j < n.len() implies n[i] != n[j] by {
                if j == c.len() {
                    assert(c.contains(n[i]));
                }
            }
            assert forall|i: int| 0 <= i < n.len() - 1 implies (#[trigger] node_in(slots, n[i])).next
                == Some(n[i + 1]) by {
                if i < c.len() - 1 {
                    assert(node_in(filled, c[i]).next == Some(c[i + 1]));
                    assert(c[i] != c.last());
                }
            }
            assert(self@ =~= old(self)@.push(value));
        }
    }

    /// Inserts `value` so that it becomes the element at `pos`; `pos` may
    /// equal the length, which appends. A larger `pos` is a caller error that
    /// the precondition rules out.
    pub fn insert_at(&mut self, pos: usize, value: T)
        requires
            old(self).wf(),
            pos <= old(self)@.len(),
            old(self)@.len() < usize::MAX,
        ensures
            final(self).wf(),
            final(self)@ == old(self)@.insert(pos as int, value),
    {
        if pos == 0 {
            self.push_front(value);
            assert(seq![value] + old(self)@ =~= old(self)@.insert(0, value));
        } else if pos == self.size {
            self.push_back(value);
            assert(old(self)@.push(value) =~= old(self)@.insert(pos as int, value));
        } else {
            let ghost c = self.chain@;
            let ghost before = self.slots@;
            let prev = self.slot_at(pos - 1);
            let next = self.slots[prev].as_ref().unwrap().next;
            proof {
                assert(node_in(before, c[pos - 1]).next == Some(c[pos as int]));
            }
            let s = self.allocate(SinglyNode::new(value, next));
            let ghost filled = self.slots@;
            self.set_next(prev, Some(s));
            self.size = self.size + 1;
            self.chain = Ghost(c.insert(pos as int, s));
            proof {
                lemma_link_in(filled, self.slots@, c, pos as int, s);
                assert(c.insert(pos as int, s).last() == c.last());
            }
        }
    }

    /// Removes and returns the element at `pos`, which must be below the
    /// length.
    pub fn delete_at(&mut self, pos: usize) -> (r: Option<T>)
        requires
            old(self).wf(),
            pos < old(self)@.len(),
        ensures
            final(self).wf(),
            r == Some(old(self)@[pos as int]),
            final(self)@ == old(self)@.remove(pos as int),
    {
        if pos == 0 {
            assert(old(self)@.drop_first() =~= old(self)@.remove(0));
            self.pop_front()
        } else if pos == self.size - 1 {
            assert(old(self)@.drop_last() =~= old(self)@.remove(pos as int));
            self.pop_back()
        } else {
            let ghost c = self.chain@;
            let ghost before = self.slots@;
            let prev = self.slot_at(pos - 1);
            let target = self.slots[prev].as_ref().unwrap().next.unwrap();
            proof {
                assert(node_in(before, c[pos - 1]).next == Some(c[pos as int]));
                assert(node_in(before, c[pos as int]).next == Some(c[pos + 1]));
            }
            let node = self.release(target);
            self.set_next(prev, node.next);
            self.size = self.size - 1;
            self.chain = Ghost(c.remove(pos as int));
            proof {
                let n = self.chain@;
                let slots = self.slots@;
                assert(c.last() != prev);
                assert forall|i: int| 0 <= i < n.len() implies slots[n[i] as int] is Some && node_in(
                    slots,
                    n[i],
                ).value == node_in(before, n[i]).value by {
                    if i < pos {
                        assert(c[i] != c[pos as int]);
                    } else {
                        assert(c[i + 1] != c[pos as int]);
                    }
                }
                assert forall|i: int| 0 <= i < n.len() - 1 implies (#[trigger] node_in(slots, n[i])).next
                    == Some(n[i + 1]) by {
                    if i < pos - 1 {
                        assert(node_in(before, c[i]).next == Some(c[i + 1]));
                        assert(c[i] != c[pos as int]);
                    } else if i >= pos {
                        assert(node_in(before, c[i + 1]).next == Some(c[i + 2]));
                        assert(c[i + 1] != c[pos as int]);
                    }
                }
                assert(n.last() == c.last());
                assert(node_in(before, c.last()).next is None);
                assert(self@ =~= old(self)@.remove(pos as int));
            }
            Some(node.value)
        }
    }

    /// Replaces the element at `pos`, which must be below the length.
    pub fn update_at(&mut self, pos: usize, value: T)
        requires
            old(self).wf(),
            pos < old(self)@.len(),
        ensures
            final(self).wf(),
            final(self)@ == old(self)@.update(pos as int, value),
    {
        let ghost c = self.chain@;
        let ghost before = self.slots@;
        let at = if pos == self.size - 1 {
            self.tail.unwrap()
        } else {
            self.slot_at(pos)
        };
        self.set_value(at, value);
        proof {
            Self::lemma_revalue(old(self), self, pos as int);
        }
    }

    /// Removes and returns the first element, or `None` when the list is
    /// empty.
    pub fn pop_front(&mut self) -> (r: Option<T>)
        requires
            old(self).wf(),
        ensures
            final(self).wf(),
            old(self)@.len() == 0 ==> r is None && final(self)@ == old(self)@,
            old(self)@.len() > 0 ==> r == Some(old(self)@[0]) && final(self)@
                == old(self)@.drop_first(),
    {
        if self.size == 0 {
            return None;
        }
        let ghost c = self.chain@;
        let ghost before = self.slots@;
        let h = self.head.unwrap();
        let node = self.release(h);
        self.head = node.next;
        self.size = self.size - 1;
        if self.size == 0 {
            self.tail = None;
        }
        self.chain = Ghost(c.drop_first());
        proof {
            let n = self.chain@;
            assert forall|i: int| 0 <= i < n.len() implies n[i] == c[i + 1] && n[i] != h by {}
            assert forall|i: int| 0 <= i < n.len() - 1 implies (#[trigger] node_in(before, n[i])).next
                == Some(n[i + 1]) by {
                assert(node_in(before, c[i + 1]).next == Some(c[i + 2]));
            }
            if c.len() > 1 {
                assert(node_in(before, c[0]).next == Some(c[1]));
            }
            assert(chain_linked(before, n));
            lemma_chain_frame(before, self.slots@, n);
            assert(self@ =~= old(self)@.drop_first());
        }
        Some(node.value)
    }

    /// Removes and returns the last element, or `None` when the list is
    /// empty. The node before the last is found by walking from the front.
    pub fn pop_back(&mut self) -> (r: Option<T>)
        requires
            old(self).wf(),
        ensures
            final(self).wf(),
            old(self)@.len() == 0 ==> r is None && final(self)@ == old(self)@,
            old(self)@.len() > 0 ==> r == Some(old(self)@.last()) && final(self)@
                == old(self)@.drop_last(),
    {
        if self.size <= 1 {
            proof {
                if self.size == 1 {
                    assert(old(self)@.drop_first() =~= old(self)@.drop_last());
                }
            }
            return self.pop_front();
        }
        let ghost c = self.chain@;
        let ghost before = self.slots@;
        let prev = self.slot_at(self.size - 2);
        let t = self.tail.unwrap();
        self.set_next(prev, None);
        let ghost relinked = self.slots@;
        let node = self.release(t);
        self.tail = Some(prev);
        self.size = self.size - 1;
        self.chain = Ghost(c.drop_last());
        proof {
            let n = self.chain@;
            let slots = self.slots@;
            assert forall|i: int| 0 <= i < n.len() implies n[i] == c[i] && n[i] != t by {}
            assert forall|i: int| 0 <= i < n.len() implies slots[n[i] as int] is Some && node_in(
                slots,
                n[i],
            ).value == node_in(before, n[i]).value by {}
            assert forall|i: int| 0 <= i < n.len() - 1 implies (#[trigger] node_in(slots, n[i])).next
                == Some(n[i + 1]) by {
                assert(node_in(before, c[i]).next == Some(c[i + 1]));
                assert(c[i] != prev);
            }
            assert(n.last() == prev);
            assert(self@ =~= old(self)@.drop_last());
        }
        Some(node.value)
    }

    /// The last element, or `None` when the list is empty.
    pub fn peek_back(&self) -> (r: Option<&T>)
        requires
            self.wf(),
        ensures
            r == (if self@.len() == 0 {
                None
            } else {
                Some(&self@.last())
            }),
    {
        if self.size == 0 {
            return None;
        }
        let t = self.tail.unwrap();
        Some(&self.slots[t].as_ref().unwrap().value)
    }

    /// The first element, or `None` when the list is empty.
    pub fn peek_front(&self) -> (r: Option<&T>)
        requires
            self.wf(),
        ensures
            r == (if self@.len() == 0 {
                None
            } else {
                Some(&self@[0])
            }),
    {
        if self.size == 0 {
            return None;
        }
        let h = self.head.unwrap();
        Some(&self.slots[h].as_ref().unwrap().value)
    }

    /// The element at `pos`, which must be below the length.
    pub fn get(&self, pos: usize) -> (r: Option<&T>)
        requires
            self.wf(),
            pos < self@.len(),
        ensures
            r == Some(&self@[pos as int]),
    {
        if pos == 0 {
            self.peek_front()
        } else if pos == self.size - 1 {
            self.peek_back()
        } else {
            let at = self.slot_at(pos);
            Some(&self.slots[at].as_ref().unwrap().value)
        }
    }

    /// Removes every element.
    pub fn clear(&mut self)
        requires
            old(self).wf(),
        ensures
            final(self).wf(),
            final(self)@ == Seq::<T>::empty(),
    {
        while self.size != 0
            invariant
                self.wf(),
            decreases self@.len(),
        {
            self.pop_front();
        }
        assert(self@ =~= Seq::<T>::empty());
    }

    /// `b` is `a` with the node at position `pos` holding another value, and
    /// nothing else changed.
    spec fn revalued_at(a: &Self, b: &Self, pos: int) -> bool {
        let at = a.chain@[pos];
        &&& at < b.slots@.len()
        &&& b.slots@ == a.slots@.update(
            at as int,
            Some(SinglyNode::revalued(node_in(a.slots@, at), node_in(b.slots@, at).value)),
        )
        &&& b.free == a.free
        &&& b.head == a.head
        &&& b.tail == a.tail
        &&& b.size == a.size
        &&& b.chain == a.chain
    }

    /// Giving the node at position `pos` a new value, and changing nothing
    /// else, keeps the list consistent and updates that one element.
    proof fn lemma_revalue(a: &Self, b: &Self, pos: int)
        requires
            a.wf(),
            0 <= pos < a@.len(),
            Self::revalued_at(a, b, pos),
        ensures
            b.wf(),
            b@ == a@.update(pos, b@[pos]),
            b@[pos] == node_in(b.slots@, a.chain@[pos]).value,
    {
        let c = a.chain@;
        let at = c[pos];
        assert forall|i: int| 0 <= i < c.len() && i != pos implies b.slots@[c[i] as int]
            == a.slots@[c[i] as int] by {}
        assert forall|i: int| 0 <= i < c.len() - 1 implies (#[trigger] node_in(b.slots@, c[i])).next
            == Some(c[i + 1]) by {
            assert(node_in(a.slots@, c[i]).next == Some(c[i + 1]));
        }
        assert(node_in(a.slots@, c.last()).next is None);
        assert forall|k: int| 0 <= k < b.free@.len() implies b.free@[k] != at by {
            assert(a.slots@[b.free@[k] as int] is None);
        }
        assert(b@ =~= a@.update(pos, b@[pos]));
    }

    /// Every list that differs from this one only in the value at position
    /// `pos` is consistent.
    proof fn lemma_revalue_any(&self, pos: int)
        requires
            self.wf(),
            0 <= pos < self@.len(),
        ensures
            forall|b: Self|
                #![trigger b.wf()]
                #![trigger b.view()]
                Self::revalued_at(self, &b, pos) ==> b.wf() && b@ == self@.update(pos, b@[pos])
                    && b@[pos] == node_in(b.slots@, self.chain@[pos]).value,
    {
        assert forall|b: Self| #[trigger] Self::revalued_at(self, &b, pos) implies b.wf() && b@
            == self@.update(pos, b@[pos]) && b@[pos] == node_in(b.slots@, self.chain@[pos]).value by {
            Self::lemma_revalue(self, &b, pos);
        }
    }

    /// Mutable access to the first element, or `None` when the list is
    /// empty. Whatever is written through it becomes the first element.
    pub fn peek_front_mut(&mut self) -> (r: Option<&mut T>)
        requires
            old(self).wf(),
        ensures
            final(self).wf(),
            old(self)@.len() == 0 ==> r is None && final(self)@ == old(self)@,
            old(self)@.len() > 0 ==> r is Some && *r.unwrap() == old(self)@[0] && final(self)@
                == old(self)@.update(0, *final(r.unwrap())),
    {
        if self.size == 0 {
            return None;
        }
        let h = self.head.unwrap();
        proof {
            self.lemma_revalue_any(0);
        }
        let node = self.slots[h].as_mut().unwrap();
        Some(&mut node.value)
    }

    /// Mutable access to the last element, or `None` when the list is
    /// empty. Whatever is written through it becomes the last element.
    pub fn peek_back_mut(&mut self) -> (r: Option<&mut T>)
        requires
            old(self).wf(),
        ensures
            final(self).wf(),
            old(self)@.len() == 0 ==> r is None && final(self)@ == old(self)@,
            old(self)@.len() > 0 ==> r is Some && *r.unwrap() == old(self)@.last() && final(self)@
                == old(self)@.update(old(self)@.len() - 1, *final(r.unwrap())),
    {
        if self.size == 0 {
            return None;
        }
        let t = self.tail.unwrap();
        proof {
            self.lemma_revalue_any(self@.len() - 1);
        }
        let node = self.slots[t].as_mut().unwrap();
        Some(&mut node.value)
    }

    /// Mutable access to the element at `pos`, which must be below the
    /// length. Whatever is written through it becomes that element.
    pub fn get_mut(&mut self, pos: usize) -> (r: Option<&mut T>)
        requires
            old(self).wf(),
            pos < old(self)@.len(),
        ensures
            final(self).wf(),
            r is Some,
            *r.unwrap() == old(self)@[pos as int],
            final(self)@ == old(self)@.update(pos as int, *final(r.unwrap())),
    {
        if pos == 0 {
            self.peek_front_mut()
        } else if pos == self.size - 1 {
            self.peek_back_mut()
        } else {
            let at = self.slot_at(pos);
            proof {
                self.lemma_revalue_any(pos as int);
            }
            let node = self.slots[at].as_mut().unwrap();
            Some(&mut node.value)
        }
    }

    /// The link taken at step `k` of a walk from the front: step 0 takes the
    /// link to the first node, and each later step the `next` link of the node
    /// that the step before reached. A step from nowhere leads nowhere.
    pub closed spec fn link_after(&self, k: nat) -> Option<usize>
        decreases k,
    {
        if k == 0 {
            self.head
        } else {
            match self.link_after((k - 1) as nat) {
                Some(s) => if s < self.slots@.len() && self.slots@[s as int] is Some {
                    node_in(self.slots@, s).next
                } else {
                    None
                },
                None => None,
            }
        }
    }

    /// The slot of the last node, as the list caches it.
    pub closed spec fn tail_link(&self) -> Option<usize> {
        self.tail
    }

    proof fn lemma_link_after(&self, k: nat)
        requires
            self.wf(),
            k < self@.len(),
        ensures
            self.link_after(k) == Some(self.chain@[k as int]),
        decreases k,
    {
        if k > 0 {
            self.lemma_link_after((k - 1) as nat);
            assert(node_in(self.slots@, self.chain@[k - 1]).next == Some(self.chain@[k as int]));
        }
    }
}

/// Walking from the front, the last of `len()` steps reaches the node that
/// the cached tail names, and one more step leads nowhere. Every operation
/// keeps the list well formed, so this holds after any sequence of them.
pub proof fn lemma_walk_reaches_tail<T>(l: &SinglyList<T>)
    requires
        l.wf(),
    ensures
        l@.len() == 0 ==> l.tail_link() is None,
        l@.len() > 0 ==> l.tail_link() is Some && l.link_after((l@.len() - 1) as nat)
            == l.tail_link(),
        l.link_after(l@.len()) is None,
{
    if l@.len() > 0 {
        l.lemma_link_after((l@.len() - 1) as nat);
        assert(node_in(l.slots@, l.chain@.last()).next is None);
    }
}

/// Appending a value and then removing the last element hands back that
/// value and leaves the elements, and so the last one, as they were.
pub proof fn lemma_push_back_then_pop_back<T>(s: Seq<T>, v: T)
    ensures
        s.push(v).len() == s.len() + 1,
        s.push(v).last() == v,
        s.push(v).drop_last() == s,
{
    assert(s.push(v).drop_last() =~= s);
}

/// Prepending a value and then removing the first element hands back that
/// value and leaves the elements, and so the first one, as they were.
pub proof fn lemma_push_front_then_pop_front<T>(s: Seq<T>, v: T)
    ensures
        (seq![v] + s).len() == s.len() + 1,
        (seq![v] + s)[0] == v,
        (seq![v] + s).drop_first() == s,
{
    assert((seq![v] + s).drop_first() =~= s);
}

/// After inserting `v` at a position from 0 to the length, the element at
/// that position is `v` and the length has grown by one.
pub proof fn lemma_insert_then_get<T>(s: Seq<T>, pos: int, v: T)
    requires
        0 <= pos <= s.len(),
    ensures
        s.insert(pos, v)[pos] == v,
        s.insert(pos, v).len() == s.len() + 1,
{
}

/// Deleting the element at a valid position removes exactly that element:
/// the others keep their relative order.
pub proof fn lemma_delete_keeps_others<T>(s: Seq<T>, pos: int)
    requires
        0 <= pos < s.len(),
    ensures
        s.remove(pos).len() == s.len() - 1,
        s.remove(pos) == s.subrange(0, pos) + s.subrange(pos + 1, s.len() as int),
        forall|i: int| 0 <= i < pos ==> s.remove(pos)[i] == s[i],
        forall|i: int| pos <= i < s.len() - 1 ==> s.remove(pos)[i] == s[i + 1],
{
    assert(s.remove(pos) =~= s.subrange(0, pos) + s.subrange(pos + 1, s.len() as int));
}

/// Updating the element at a valid position changes that element alone and
/// keeps the length.
pub proof fn lemma_update_changes_one<T>(s: Seq<T>, pos: int, v: T)
    requires
        0 <= pos < s.len(),
    ensures
        s.update(pos, v).len() == s.len(),
        s.update(pos, v)[pos] == v,
        forall|i: int| 0 <= i < s.len() && i != pos ==> s.update(pos, v)[i] == s[i],
{
}

} // verus!
