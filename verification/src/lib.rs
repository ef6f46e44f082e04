//! An intrusive set of doubly-linked lists, indexed by number. Elements owned
//! by the multilist can belong to any number of the constituent linked lists,
//! and one storage slot is used per element regardless of how many lists it
//! joins.
//!
//! Elements live in an arena: a growable vector of slots, each slot holding
//! the stored value together with one `(next, prev)` link pair per list. A
//! [`MultilistElement`] is a cheap, copyable handle naming one slot. When
//! first adding a value (via [`Multilist::push_back`]) you choose which list
//! it initially belongs to; you can then find it with an iterator and add it
//! to other lists via [`Multilist::push_back_existing`]. Elements can be
//! removed from individual lists with [`Multilist::remove_existing`] and
//! retired entirely with [`Multilist::pop_back`].
//!
//! Each list is modelled by the (ghost) sequence of slot indices it holds, in
//! order from head to tail; the container invariant ties the link pairs, the
//! per-list head/tail table and those sequences together.

use vstd::prelude::*;
use vstd::seq_lib::*;

verus! {

/// The `(next, prev)` references of one element for one specific list,
/// together with the membership flag for that list.
///
/// Both references empty is what a sole member of a list looks like, and also
/// what a non-member looks like; the explicit `linked` flag tells the two
/// apart.
#[derive(Clone, Copy)]
pub struct MultilistPointers {
    next: Option<usize>,
    prev: Option<usize>,
    linked: bool,
}

impl MultilistPointers {
    /// True when the pair records no membership and no neighbours.
    pub closed spec fn cleared(self) -> bool {
        &&& self.next is None
        &&& self.prev is None
        &&& !self.linked
    }

    /// A link pair that belongs to no list.
    pub fn new() -> (p: MultilistPointers)
        ensures
            p.cleared(),
    {
        MultilistPointers { next: None, prev: None, linked: false }
    }
}

/// The head and tail references of one list.
#[derive(Clone, Copy)]
pub struct MultilistListPointers {
    head: Option<usize>,
    tail: Option<usize>,
}

impl MultilistListPointers {
    /// True when the list table entry describes an empty list.
    pub closed spec fn cleared(self) -> bool {
        &&& self.head is None
        &&& self.tail is None
    }

    /// A table entry for an empty list.
    pub fn new() -> (p: MultilistListPointers)
        ensures
            p.cleared(),
    {
        MultilistListPointers { head: None, tail: None }
    }
}

/// One storage slot: the stored value plus one link pair per list.
struct ElementSlot<V> {
    value: V,
    links: Vec<MultilistPointers>,
}

/// A cheap, copyable, non-owning handle naming one element of a multilist.
///
/// Handles are obtained from [`Multilist::push_back`] and from iteration and
/// stay meaningful until the element is retired by [`Multilist::pop_back`].
#[derive(Clone, Copy, PartialEq, Eq, Structural)]
pub struct MultilistElement {
    index: usize,
}

impl MultilistElement {
    /// The arena index of the slot this handle names.
    pub closed spec fn id(self) -> usize {
        self.index
    }

    /// True when this element is a member of list `list_index` of `m`.
    pub fn is_in_list<V>(&self, m: &Multilist<V>, list_index: usize) -> (r: bool)
        requires
            m.wf(),
            m.valid_element(*self),
            list_index < m.num_lists(),
        ensures
            r == m.member(self.id(), list_index as int),
    {
        proof {
            assert(m.slot_inv(self.index as int));
        }
        let pl = m.link_at(self.index, list_index);
        pl.linked
    }
}

/// An intrusive multi-list container: a fixed number of independent
/// doubly-linked lists over a shared arena of element slots.
pub struct Multilist<V> {
    slots: Vec<Option<ElementSlot<V>>>,
    table: Vec<MultilistListPointers>,
    order: Ghost<Seq<Seq<usize>>>,
}

/// Removing one occurrence of `t` from a duplicate-free sequence removes
/// `t` entirely, keeps every other value, and shortens the sequence by one
/// exactly when `t` was present.
proof fn lemma_remove_value_membership(s: Seq<usize>, t: usize)
    requires
        s.no_duplicates(),
    ensures
        !s.remove_value(t).contains(t),
        forall|x: usize| x != t ==> #[trigger] s.remove_value(t).contains(x) == s.contains(x),
        s.contains(t) ==> s.remove_value(t).len() == s.len() - 1,
        !s.contains(t) ==> s.remove_value(t) == s,
{
    s.index_of_first_ensures(t);
    if s.contains(t) {
        let k = s.index_of_first(t).unwrap();
        s.remove_ensures(k);
        let s2 = s.remove(k);
        assert(s2.len() == s.len() - 1);
        assert(forall|j: int| 0 <= j < k ==> #[trigger] s2[j] == s[j]);
        assert(forall|j: int| k <= j < s.len() - 1 ==> #[trigger] s2[j] == s[j + 1]);
        assert(!s2.contains(t)) by {
            if s2.contains(t) {
                let w = choose|w: int| 0 <= w < s2.len() && s2[w] == t;
                if w < k {
                    assert(s[w] == t && s[k] == t && w != k);
                } else {
                    assert(s[w + 1] == t && s[k] == t && w + 1 != k);
                }
            }
        }
        assert forall|x: usize| x != t implies #[trigger] s2.contains(x) == s.contains(x) by {
            if s.contains(x) {
                let w = choose|w: int| 0 <= w < s.len() && s[w] == x;
                assert(w != k);
                if w < k {
                    assert(s2[w] == x);
                } else {
                    assert(s2[w - 1] == x);
                }
                assert(s2.contains(x));
            }
            if s2.contains(x) {
                let w = choose|w: int| 0 <= w < s2.len() && s2[w] == x;
                if w < k {
                    assert(s[w] == x);
                } else {
                    assert(s[w + 1] == x);
                }
                assert(s.contains(x));
            }
        }
    }
}

/// The arena index of the successor of position `k` in list order `s`, or
/// a sentinel when `k` is the last position.
spec fn unlink_next(s: Seq<usize>, k: int) -> int {
    if k < s.len() - 1 {
        s[k + 1] as int
    } else {
        -1
    }
}

/// The arena index of the predecessor of position `k` in list order `s`, or
/// a sentinel when `k` is the first position.
spec fn unlink_prev(s: Seq<usize>, k: int) -> int {
    if k > 0 {
        s[k - 1] as int
    } else {
        -1
    }
}

impl<V> Multilist<V> {
    /// The number of lists, fixed at construction.
    pub closed spec fn num_lists(self) -> nat {
        self.table@.len()
    }

    /// The number of arena slots ever created (occupied or freed).
    pub closed spec fn slot_count(self) -> nat {
        self.slots@.len()
    }

    /// True when slot `i` currently holds an element.
    pub closed spec fn occupied(self, i: int) -> bool {
        &&& 0 <= i < self.slots@.len()
        &&& self.slots@[i] is Some
    }

    /// The value stored in slot `i`.
    pub closed spec fn value_at(self, i: int) -> V {
        self.slots@[i].unwrap().value
    }

    /// The elements of list `l`, as slot indices in order from head to tail.
    pub closed spec fn list_at(self, l: int) -> Seq<usize> {
        self.order@[l]
    }

    /// True when slot `i` is a member of list `l`.
    pub closed spec fn member(self, i: usize, l: int) -> bool {
        self.list_at(l).contains(i)
    }

    /// True when `e` names a live element of this container.
    pub closed spec fn valid_element(self, e: MultilistElement) -> bool {
        self.occupied(e.id() as int)
    }

    /// The values of list `l`, in order from head to tail.
    pub open spec fn values_at(self, l: int) -> Seq<V> {
        self.list_at(l).map_values(|i: usize| self.value_at(i as int))
    }

    /// The link pair of slot `i` for list `l`.
    spec fn link_of(self, i: int, l: int) -> MultilistPointers {
        self.slots@[i].unwrap().links@[l]
    }

    /// Per-slot invariant: an occupied slot carries one link pair per list,
    /// and each pair's membership flag agrees with the list's contents.
    spec fn slot_inv(self, i: int) -> bool {
        self.slots@[i] is Some ==> {
            let links = self.slots@[i].unwrap().links@;
            &&& links.len() == self.table@.len()
            &&& forall|l: int|
                0 <= l < links.len() ==> ((#[trigger] links[l]).linked <==> self.order@[l].contains(
                    i as usize,
                ))
            &&& forall|l: int|
                0 <= l < links.len() && !(#[trigger] links[l]).linked ==> links[l].next is None
                    && links[l].prev is None
        }
    }

    /// Per-list invariant: the list's members are distinct occupied slots
    /// whose link pairs chain them in order, and the head/tail table entry
    /// names the chain's ends.
    spec fn list_inv(self, l: int) -> bool {
        let s = self.order@[l];
        &&& s.no_duplicates()
        &&& forall|k: int| #![trigger s[k]] 0 <= k < s.len() ==> self.occupied(s[k] as int)
        &&& forall|k: int| #![trigger self.link_of(s[k] as int, l)]
            0 <= k < s.len() ==> self.link_of(s[k] as int, l) == (MultilistPointers {
                linked: true,
                next: if k == s.len() - 1 {
                    None
                } else {
                    Some(s[k + 1])
                },
                prev: if k == 0 {
                    None
                } else {
                    Some(s[k - 1])
                },
            })
        &&& self.table@[l].head == (if s.len() == 0 {
            None::<usize>
        } else {
            Some(s[0])
        })
        &&& self.table@[l].tail == (if s.len() == 0 {
            None::<usize>
        } else {
            Some(s[s.len() - 1])
        })
    }

    /// The container invariant: established by [`Multilist::new`] and
    /// preserved by every operation.
    pub closed spec fn wf(self) -> bool {
        &&& 0 < self.table@.len()
        &&& self.order@.len() == self.table@.len()
        &&& forall|i: int| 0 <= i < self.slots@.len() ==> #[trigger] self.slot_inv(i)
        &&& forall|l: int| 0 <= l < self.table@.len() ==> #[trigger] self.list_inv(l)
    }

    /// Creates a multilist with `list_count` independent lists, all empty.
    pub fn new(list_count: usize) -> (r: Multilist<V>)
        requires
            list_count > 0,
        ensures
            r.wf(),
            r.num_lists() == list_count,
            r.slot_count() == 0,
            forall|l: int| 0 <= l < list_count ==> #[trigger] r.list_at(l) == Seq::<usize>::empty(),
    {
        let mut table: Vec<MultilistListPointers> = Vec::new();
        let mut k: usize = 0;
        while k < list_count
            invariant
                k <= list_count,
                table@.len() == k,
                forall|j: int| 0 <= j < k ==> (#[trigger] table@[j]).cleared(),
            decreases list_count - k,
        {
            table.push(MultilistListPointers::new());
            k = k + 1;
        }
        let r = Multilist {
            slots: Vec::new(),
            table,
            order: Ghost(Seq::new(list_count as nat, |l: int| Seq::<usize>::empty())),
        };
        proof {
            assert forall|l: int| 0 <= l < r.table@.len() implies #[trigger] r.list_inv(l) by {
                assert(r.order@[l] =~= Seq::<usize>::empty());
            }
        }
        r
    }

    /// The number of lists this multilist was created with.
    pub fn list_count(&self) -> (n: usize)
        ensures
            n == self.num_lists(),
    {
        self.table.len()
    }

    /// True when list `list_index` has no members.
    pub fn is_empty(&self, list_index: usize) -> (r: bool)
        requires
            self.wf(),
            list_index < self.num_lists(),
        ensures
            r == (self.list_at(list_index as int).len() == 0),
    {
        proof {
            assert(self.list_inv(list_index as int));
        }
        match self.table[list_index].head {
            None => true,
            Some(_) => false,
        }
    }

    /// Reads the link pair of slot `i` for list `list_index`.
    fn link_at(&self, i: usize, list_index: usize) -> (p: MultilistPointers)
        requires
            i < self.slots@.len(),
            self.slots@[i as int] is Some,
            list_index < self.slots@[i as int].unwrap().links@.len(),
        ensures
            p == self.link_of(i as int, list_index as int),
    {
        match &self.slots[i] {
            Some(s) => s.links[list_index],
            None => MultilistPointers::new(),
        }
    }

    /// Overwrites the link pair of slot `i` for list `list_index`, leaving
    /// everything else (including the ghost list model) unchanged.
    fn set_link(&mut self, i: usize, list_index: usize, p: MultilistPointers)
        requires
            i < old(self).slots@.len(),
            old(self).slots@[i as int] is Some,
            list_index < old(self).slots@[i as int].unwrap().links@.len(),
        ensures
            final(self).table == old(self).table,
            final(self).order == old(self).order,
            final(self).slots@.len() == old(self).slots@.len(),
            forall|j: int|
                0 <= j < old(self).slots@.len() && j != i ==> final(self).slots@[j] == old(self).slots@[j],
            final(self).slots@[i as int] is Some,
            final(self).slots@[i as int].unwrap().value == old(self).slots@[i as int].unwrap().value,
            final(self).slots@[i as int].unwrap().links@ == old(self).slots@[i as int].unwrap().links@.update(list_index as int, p),
    {
        let slot = &mut self.slots[i];
        match slot {
            Some(s) => {
                s.links[list_index] = p;
            },
            None => {},
        }
    }

    /// Overwrites the head/tail table entry of list `list_index`.
    fn set_table(&mut self, list_index: usize, lp: MultilistListPointers)
        requires
            list_index < old(self).table@.len(),
        ensures
            final(self).slots == old(self).slots,
            final(self).order == old(self).order,
            final(self).table@ == old(self).table@.update(list_index as int, lp),
    {
        self.table[list_index] = lp;
    }

    /// Tail-appends an already-existing element (obtained from a handle or
    /// iteration) into list `list_index`. The element must not already be a
    /// member of that list; order of the other lists and all stored values
    /// are untouched.
    #[verifier::rlimit(60)]
    pub fn push_back_existing(&mut self, list_index: usize, element: MultilistElement)
        requires
            old(self).wf(),
            list_index < old(self).num_lists(),
            old(self).valid_element(element),
            !old(self).member(element.id(), list_index as int),
        ensures
            final(self).wf(),
            final(self).num_lists() == old(self).num_lists(),
            final(self).slot_count() == old(self).slot_count(),
            forall|i: int| #[trigger] final(self).occupied(i) == old(self).occupied(i),
            forall|i: int|
                old(self).occupied(i) ==> #[trigger] final(self).value_at(i) == old(self).value_at(
                    i,
                ),
            final(self).list_at(list_index as int) == old(self).list_at(list_index as int).push(
                element.id(),
            ),
            forall|l: int|
                0 <= l < old(self).num_lists() && l != list_index ==> #[trigger] final(self).list_at(l) == old(self).list_at(l),
            final(self).values_at(list_index as int) == old(self).values_at(list_index as int).push(
                old(self).value_at(element.id() as int),
            ),
    {
        let i = element.index;
        let ghost li = list_index as int;
        let ghost s = old(self).order@[li];
        proof {
            assert(old(self).slot_inv(i as int));
            assert(old(self).list_inv(li));
        }
        let tail_opt = self.table[list_index].tail;
        match tail_opt {
            None => {
                proof {
                    assert(s.len() == 0);
                }
                self.set_link(
                    i,
                    list_index,
                    MultilistPointers { next: None, prev: None, linked: true },
                );
                let mut lp = self.table[list_index];
                lp.head = Some(i);
                lp.tail = Some(i);
                self.set_table(list_index, lp);
            },
            Some(t) => {
                proof {
                    assert(s.len() > 0);
                    assert(t == s[s.len() - 1]);
                    assert(old(self).occupied(t as int));
                    assert(old(self).slot_inv(t as int));
                    assert(s.contains(t));
                    assert(t != i);
                }
                let pt = self.link_at(t, list_index);
                self.set_link(
                    t,
                    list_index,
                    MultilistPointers { next: Some(i), prev: pt.prev, linked: pt.linked },
                );
                self.set_link(
                    i,
                    list_index,
                    MultilistPointers { next: None, prev: Some(t), linked: true },
                );
                let mut lp = self.table[list_index];
                lp.tail = Some(i);
                self.set_table(list_index, lp);
            },
        }
        proof {
            self.order@ = self.order@.update(li, s.push(i));
        }
        proof {
            let n = s.len() as int;
            let t0: int = if s.len() > 0 { s[n - 1] as int } else { -1 };
            if s.len() > 0 {
                assert(s.contains(s[n - 1]));
                assert(t0 != i as int);
                assert(old(self).occupied(t0));
                assert(old(self).slot_inv(t0));
            }
            assert(self.order@ == old(self).order@.update(li, s.push(i)));
            assert(self.slots@.len() == old(self).slots@.len());
            assert(self.table@.len() == old(self).table@.len());
            assert(forall|j: int|
                0 <= j < self.slots@.len() && j != i as int && j != t0 ==> self.slots@[j] == old(self).slots@[j]);
            let links_i0 = old(self).slots@[i as int].unwrap().links@;
            let links_i1 = self.slots@[i as int].unwrap().links@;
            assert(self.slots@[i as int] is Some);
            assert(self.slots@[i as int].unwrap().value == old(self).slots@[i as int].unwrap().value);
            assert(links_i0.len() == old(self).table@.len());
            assert(links_i1 == links_i0.update(li, links_i1[li]));
            assert(links_i1[li] == (MultilistPointers {
                linked: true,
                next: None,
                prev: if n == 0 {
                    None
                } else {
                    Some(s[n - 1])
                },
            }));
            if s.len() > 0 {
                assert(self.slots@[t0] is Some);
                assert(self.slots@[t0].unwrap().value == old(self).slots@[t0].unwrap().value);
                assert(self.slots@[t0].unwrap().links@ == old(self).slots@[t0].unwrap().links@.update(li, self.slots@[t0].unwrap().links@[li]));
                assert(self.slots@[t0].unwrap().links@[li] == (MultilistPointers {
                    linked: true,
                    next: Some(i),
                    prev: if n == 1 {
                        None
                    } else {
                        Some(s[n - 2])
                    },
                }));
            }
            assert(self.table@[li].head == (if n == 0 {
                Some(i)
            } else {
                Some(s[0])
            }));
            assert(self.table@[li].tail == Some(i));
            assert(forall|l: int|
                0 <= l < self.table@.len() && l != li ==> self.table@[l] == old(self).table@[l]);
            Self::lemma_tail_append(*old(self), *self, li, i, t0);
            assert(self.list_at(li) == s.push(i));
        }
    }

    /// Proof that the tail-append surgery on the link pairs, the head/tail
    /// table and the ghost order re-establishes the container invariant. The
    /// preconditions summarise the state after appending `i` to list `li`
    /// whose old tail slot (if any) was `t0`.
    #[verifier::spinoff_prover]
    #[verifier::rlimit(100)]
    proof fn lemma_tail_append(m0: Multilist<V>, m1: Multilist<V>, li: int, i: usize, t0: int)
        requires
            m0.wf(),
            0 <= li < m0.table@.len(),
            m0.occupied(i as int),
            !m0.order@[li].contains(i),
            t0 == (if m0.order@[li].len() > 0 {
                m0.order@[li][m0.order@[li].len() - 1] as int
            } else {
                -1
            }),
            m1.order@ == m0.order@.update(li, m0.order@[li].push(i)),
            m1.slots@.len() == m0.slots@.len(),
            m1.table@.len() == m0.table@.len(),
            forall|j: int|
                0 <= j < m1.slots@.len() && j != i as int && j != t0 ==> m1.slots@[j]
                    == m0.slots@[j],
            m1.slots@[i as int] is Some,
            m1.slots@[i as int].unwrap().value == m0.slots@[i as int].unwrap().value,
            m1.slots@[i as int].unwrap().links@ == m0.slots@[i as int].unwrap().links@.update(
                li,
                m1.slots@[i as int].unwrap().links@[li],
            ),
            m1.slots@[i as int].unwrap().links@[li] == (MultilistPointers {
                linked: true,
                next: None,
                prev: if m0.order@[li].len() == 0 {
                    None
                } else {
                    Some(m0.order@[li][m0.order@[li].len() - 1])
                },
            }),
            m0.order@[li].len() > 0 ==> m1.slots@[t0] is Some,
            m0.order@[li].len() > 0 ==> m1.slots@[t0].unwrap().value
                == m0.slots@[t0].unwrap().value,
            m0.order@[li].len() > 0 ==> m1.slots@[t0].unwrap().links@
                == m0.slots@[t0].unwrap().links@.update(li, m1.slots@[t0].unwrap().links@[li]),
            m0.order@[li].len() > 0 ==> m1.slots@[t0].unwrap().links@[li] == (MultilistPointers {
                linked: true,
                next: Some(i),
                prev: if m0.order@[li].len() == 1 {
                    None
                } else {
                    Some(m0.order@[li][m0.order@[li].len() - 2])
                },
            }),
            m1.table@[li].head == (if m0.order@[li].len() == 0 {
                Some(i)
            } else {
                Some(m0.order@[li][0])
            }),
            m1.table@[li].tail == Some(i),
            forall|l: int| 0 <= l < m1.table@.len() && l != li ==> m1.table@[l] == m0.table@[l],
        ensures
            m1.wf(),
            forall|j: int| #[trigger] m1.occupied(j) == m0.occupied(j),
            forall|j: int| m0.occupied(j) ==> #[trigger] m1.value_at(j) == m0.value_at(j),
            m1.values_at(li) == m0.values_at(li).push(m0.value_at(i as int)),
    {
        let s = m0.order@[li];
        let s2 = m1.order@[li];
        let n = s.len() as int;
        // The slot vector's length fits in usize, so distinct int indices
        // below it stay distinct as usize values.
        assert(m0.slots.len() == m0.slots@.len());
        assert(m1.slots.len() == m1.slots@.len());
        assert(s2 == s.push(i));
        assert(s2[n] == i);
        assert(forall|k: int| 0 <= k < n ==> s2[k] == s[k]);
        assert(s2.contains(i));
        assert(m0.slot_inv(i as int));
        assert(m0.list_inv(li));
        if s.len() > 0 {
            assert(s.contains(s[n - 1]));
            assert(t0 != i as int);
            assert(m0.occupied(t0));
            assert(m0.slot_inv(t0));
        }
        assert forall|x: usize| x != i implies (s2.contains(x) == s.contains(x)) by {
            if s.contains(x) {
                let w = choose|w: int| 0 <= w < s.len() && s[w] == x;
                assert(s2[w] == x);
            }
            if s2.contains(x) {
                let w = choose|w: int| 0 <= w < s2.len() && s2[w] == x;
                assert(w < n);
                assert(s[w] == x);
            }
        }
        // Every slot keeps its occupancy and value.
        assert forall|j: int| #[trigger] m1.occupied(j) == m0.occupied(j) by {
            if 0 <= j < m1.slots@.len() && j != i as int && j != t0 {
                assert(m1.slots@[j] == m0.slots@[j]);
            }
        }
        assert forall|j: int| m0.occupied(j) implies #[trigger] m1.value_at(j) == m0.value_at(
            j,
        ) by {
            if j != i as int && j != t0 {
                assert(m1.slots@[j] == m0.slots@[j]);
            }
        }
        // Slot invariants.
        assert forall|j: int| 0 <= j < m1.slots@.len() implies #[trigger] m1.slot_inv(j) by {
            assert(m0.slot_inv(j));
            if m1.slots@[j] is Some {
                let links0 = m0.slots@[j].unwrap().links@;
                let links1 = m1.slots@[j].unwrap().links@;
                assert(m0.occupied(j));
                assert(links0.len() == m0.table@.len());
                if j != i as int && j != t0 {
                    assert(m1.slots@[j] == m0.slots@[j]);
                }
                assert(links1.len() == m1.table@.len());
                assert forall|l: int|
                    0 <= l < links1.len() implies ((#[trigger] links1[l]).linked
                    <==> m1.order@[l].contains(j as usize)) && (!links1[l].linked ==> links1[l].next
                    is None && links1[l].prev is None) by {
                    assert(links0[l].linked <==> m0.order@[l].contains(j as usize));
                    if l != li {
                        assert(links1[l] == links0[l]);
                        assert(m1.order@[l] == m0.order@[l]);
                    } else {
                        if j == i as int {
                            assert(links1[li].linked);
                            assert(s2.contains(i));
                        } else if j == t0 {
                            assert(links1[li].linked);
                            assert(s2.contains(j as usize));
                        } else {
                            assert(links1[l] == links0[l]);
                            let x = j as usize;
                            assert(x != i);
                            if s.contains(x) {
                                let w = choose|w: int| 0 <= w < s.len() && s[w] == x;
                                assert(s2[w] == x);
                                assert(s2.contains(x));
                            }
                            if s2.contains(x) {
                                let w = choose|w: int| 0 <= w < s2.len() && s2[w] == x;
                                assert(w < n);
                                assert(s[w] == x);
                                assert(s.contains(x));
                            }
                        }
                    }
                }
            }
        }
        // List invariants.
        assert forall|l: int| 0 <= l < m1.table@.len() implies #[trigger] m1.list_inv(l) by {
            assert(m0.list_inv(l));
            if l != li {
                let sl = m1.order@[l];
                assert(sl == m0.order@[l]);
                assert(m1.table@[l] == m0.table@[l]);
                assert forall|k: int| #![trigger sl[k]] 0 <= k < sl.len() implies m1.occupied(
                    sl[k] as int,
                ) && m1.link_of(sl[k] as int, l) == m0.link_of(sl[k] as int, l) by {
                    assert(m0.occupied(sl[k] as int));
                    let x = sl[k] as int;
                    if x == i as int {
                        assert(m1.slots@[x].unwrap().links@[l] == m0.slots@[x].unwrap().links@[l]);
                    } else if x == t0 {
                        assert(m1.slots@[x].unwrap().links@[l] == m0.slots@[x].unwrap().links@[l]);
                    } else {
                        assert(m1.slots@[x] == m0.slots@[x]);
                    }
                }
            } else {
                // The appended list.
                let s = m0.order@[li];
                let s2 = m1.order@[li];
                let n = s.len() as int;
                assert forall|k1: int, k2: int| 0 <= k1 < k2 < s2.len() implies s2[k1]
                    != s2[k2] by {
                    if k2 == n {
                        assert(s.contains(s[k1]));
                    }
                }
                assert(s2.no_duplicates());
                assert forall|k: int| #![trigger s2[k]] 0 <= k < s2.len() implies m1.occupied(
                    s2[k] as int,
                ) by {
                    if k < n {
                        assert(m0.occupied(s[k] as int));
                    }
                }
                assert forall|k: int| #![trigger m1.link_of(s2[k] as int, l)]
                    0 <= k < s2.len() implies m1.link_of(s2[k] as int, l) == (MultilistPointers {
                    linked: true,
                    next: if k == s2.len() - 1 {
                        None
                    } else {
                        Some(s2[k + 1])
                    },
                    prev: if k == 0 {
                        None
                    } else {
                        Some(s2[k - 1])
                    },
                }) by {
                    if k < n - 1 {
                        assert(s[k] != s[n - 1]);
                        assert(s2[k] != i);
                        assert(m1.slots@[s2[k] as int] == m0.slots@[s2[k] as int]);
                        assert(m0.link_of(s[k] as int, li) == (MultilistPointers {
                            linked: true,
                            next: Some(s[k + 1]),
                            prev: if k == 0 {
                                None
                            } else {
                                Some(s[k - 1])
                            },
                        }));
                    } else if k == n - 1 {
                        assert(s2[k] as int == t0);
                    } else {
                        assert(k == n);
                        assert(s2[k] == i);
                    }
                }
            }
        }
        assert(m1.wf());
        // The value sequence of the target list is the old one with the
        // element's value appended.
        assert(m1.values_at(li) =~= m0.values_at(li).push(m0.value_at(i as int))) by {
            let f1 = |x: usize| m1.value_at(x as int);
            let f0 = |x: usize| m0.value_at(x as int);
            assert forall|j: int| 0 <= j < s2.len() implies s2.map_values(f1)[j] == m0.values_at(
                li,
            ).push(m0.value_at(i as int))[j] by {
                if j < n {
                    assert(m0.occupied(s[j] as int));
                    assert(s.map_values(f0)[j] == f0(s[j]));
                    assert(f1(s2[j]) == f0(s[j]));
                } else {
                    assert(f1(s2[j]) == m0.value_at(i as int));
                }
            }
        }
    }

    /// Inserts a brand-new element holding `value` into list `list_index`,
    /// using one fresh storage slot, and returns a handle to it.
    pub fn push_back(&mut self, list_index: usize, value: V) -> (e: MultilistElement)
        requires
            old(self).wf(),
            list_index < old(self).num_lists(),
        ensures
            final(self).wf(),
            final(self).num_lists() == old(self).num_lists(),
            final(self).slot_count() == old(self).slot_count() + 1,
            e.id() == old(self).slot_count(),
            final(self).valid_element(e),
            final(self).value_at(e.id() as int) == value,
            forall|i: int|
                0 <= i < old(self).slot_count() ==> #[trigger] final(self).occupied(i) == old(self).occupied(i),
            forall|i: int|
                0 <= i < old(self).slot_count() && old(self).occupied(i) ==> #[trigger] final(self).value_at(i) == old(self).value_at(i),
            final(self).list_at(list_index as int) == old(self).list_at(list_index as int).push(
                e.id(),
            ),
            forall|l: int|
                0 <= l < old(self).num_lists() && l != list_index ==> #[trigger] final(self).list_at(l) == old(self).list_at(l),
            final(self).values_at(list_index as int) == old(self).values_at(list_index as int).push(
                value,
            ),
    {
        let i = self.slots.len();
        let lc = self.table.len();
        let mut links: Vec<MultilistPointers> = Vec::new();
        let mut k: usize = 0;
        while k < lc
            invariant
                k <= lc,
                links@.len() == k,
                forall|j: int| 0 <= j < k ==> (#[trigger] links@[j]).cleared(),
            decreases lc - k,
        {
            links.push(MultilistPointers::new());
            k = k + 1;
        }
        self.slots.push(Some(ElementSlot { value, links }));
        let e = MultilistElement { index: i };
        let ghost mid = *self;
        proof {
            let li = list_index as int;
            assert(mid.order@ == old(self).order@);
            assert(mid.table@ == old(self).table@);
            assert(mid.slots@.len() == old(self).slots@.len() + 1);
            assert(forall|j: int|
                0 <= j < old(self).slots@.len() ==> mid.slots@[j] == old(self).slots@[j]);
            assert(mid.slots@[i as int] is Some);
            assert(mid.slots@[i as int].unwrap().value == value);
            assert(mid.slots@[i as int].unwrap().links@.len() == mid.table@.len());
            assert(forall|l: int|
                0 <= l < mid.table@.len() ==> (#[trigger] mid.slots@[i as int].unwrap().links@[l]).cleared());
            // The fresh slot index is a member of no list: every listed index
            // named an occupied slot of the old state, and the fresh index
            // was out of range there.
            assert forall|l: int|
                0 <= l < mid.order@.len() implies !(#[trigger] mid.order@[l]).contains(i) by {
                assert(old(self).list_inv(l));
                if mid.order@[l].contains(i) {
                    let w = choose|w: int|
                        0 <= w < mid.order@[l].len() && mid.order@[l][w] == i;
                    assert(old(self).occupied(old(self).order@[l][w] as int));
                }
            }
            assert forall|j: int| 0 <= j < mid.slots@.len() implies #[trigger] mid.slot_inv(
                j,
            ) by {
                if j < old(self).slots@.len() {
                    assert(old(self).slot_inv(j));
                    assert(mid.slots@[j] == old(self).slots@[j]);
                } else {
                    assert(j == i as int);
                }
            }
            assert forall|l: int| 0 <= l < mid.table@.len() implies #[trigger] mid.list_inv(
                l,
            ) by {
                assert(old(self).list_inv(l));
                let sl = mid.order@[l];
                assert forall|k2: int| #![trigger sl[k2]] 0 <= k2 < sl.len() implies mid.occupied(
                    sl[k2] as int,
                ) && mid.link_of(sl[k2] as int, l) == old(self).link_of(sl[k2] as int, l) by {
                    assert(old(self).occupied(sl[k2] as int));
                    assert(mid.slots@[sl[k2] as int] == old(self).slots@[sl[k2] as int]);
                }
            }
            assert(mid.wf());
            assert(mid.valid_element(e));
            assert(!mid.member(e.id(), li));
        }
        self.push_back_existing(list_index, e);
        proof {
            let li = list_index as int;
            assert(self.value_at(i as int) == mid.value_at(i as int));
            assert(mid.value_at(i as int) == value);
            assert(mid.values_at(li) =~= old(self).values_at(li)) by {
                let s = old(self).order@[li];
                let f1 = |x: usize| mid.value_at(x as int);
                let f0 = |x: usize| old(self).value_at(x as int);
                assert(old(self).list_inv(li));
                assert forall|j: int| 0 <= j < s.len() implies s.map_values(f1)[j]
                    == s.map_values(f0)[j] by {
                    assert(old(self).occupied(s[j] as int));
                    assert(mid.slots@[s[j] as int] == old(self).slots@[s[j] as int]);
                    assert(s.map_values(f1)[j] == f1(s[j]));
                    assert(s.map_values(f0)[j] == f0(s[j]));
                }
            }
            assert(self.values_at(li) == old(self).values_at(li).push(value));
        }
        e
    }

    /// Removes the element from list `list_index` only, leaving its
    /// membership in every other list untouched. The element's storage stays
    /// live even if this was its last list: only [`Multilist::pop_back`]
    /// retires storage.
    pub fn remove_existing(&mut self, list_index: usize, element: MultilistElement)
        requires
            old(self).wf(),
            list_index < old(self).num_lists(),
            old(self).valid_element(element),
            old(self).member(element.id(), list_index as int),
        ensures
            final(self).wf(),
            final(self).num_lists() == old(self).num_lists(),
            final(self).slot_count() == old(self).slot_count(),
            forall|i: int| #[trigger] final(self).occupied(i) == old(self).occupied(i),
            forall|i: int|
                old(self).occupied(i) ==> #[trigger] final(self).value_at(i) == old(self).value_at(
                    i,
                ),
            final(self).list_at(list_index as int) == old(self).list_at(
                list_index as int,
            ).remove_value(element.id()),
            !final(self).member(element.id(), list_index as int),
            forall|x: usize|
                x != element.id() ==> #[trigger] final(self).member(x, list_index as int) == old(self).member(x, list_index as int),
            forall|l: int|
                0 <= l < old(self).num_lists() && l != list_index ==> #[trigger] final(self).list_at(l) == old(self).list_at(l),
    {
        let i = element.index;
        let ghost li = list_index as int;
        let ghost s = old(self).order@[li];
        let ghost n = s.len() as int;
        let ghost k = s.index_of(i);
        proof {
            assert(old(self).slot_inv(i as int));
            assert(old(self).list_inv(li));
            assert(s.contains(i));
            assert(0 <= k < s.len() && s[k] == i);
        }
        let p = self.link_at(i, list_index);
        proof {
            assert(p == old(self).link_of(s[k] as int, li));
            assert(p.next == (if k == n - 1 {
                None::<usize>
            } else {
                Some(s[k + 1])
            }));
            assert(p.prev == (if k == 0 {
                None::<usize>
            } else {
                Some(s[k - 1])
            }));
        }
        match p.next {
            Some(nx) => {
                proof {
                    assert(k < n - 1 && nx == s[k + 1]);
                    assert(s.contains(s[k + 1]));
                    assert(old(self).occupied(nx as int));
                    assert(old(self).slot_inv(nx as int));
                    assert(nx != i);
                    assert(old(self).link_of(s[k + 1] as int, li) == (MultilistPointers {
                        linked: true,
                        next: if k + 1 == n - 1 {
                            None
                        } else {
                            Some(s[k + 2])
                        },
                        prev: Some(s[k]),
                    }));
                }
                let pn = self.link_at(nx, list_index);
                self.set_link(
                    nx,
                    list_index,
                    MultilistPointers { next: pn.next, prev: p.prev, linked: pn.linked },
                );
            },
            None => {
                proof {
                    assert(k == n - 1);
                }
                let mut lp = self.table[list_index];
                lp.tail = p.prev;
                self.set_table(list_index, lp);
            },
        }
        match p.prev {
            Some(pv) => {
                proof {
                    assert(k > 0 && pv == s[k - 1]);
                    assert(s.contains(s[k - 1]));
                    assert(old(self).occupied(pv as int));
                    assert(old(self).slot_inv(pv as int));
                    assert(pv != i);
                    if k < n - 1 {
                        assert(pv != s[k + 1]);
                    }
                    assert(self.slots@[pv as int] == old(self).slots@[pv as int]);
                    assert(old(self).link_of(s[k - 1] as int, li) == (MultilistPointers {
                        linked: true,
                        next: Some(s[k]),
                        prev: if k == 1 {
                            None
                        } else {
                            Some(s[k - 2])
                        },
                    }));
                }
                let pp = self.link_at(pv, list_index);
                self.set_link(
                    pv,
                    list_index,
                    MultilistPointers { next: p.next, prev: pp.prev, linked: pp.linked },
                );
            },
            None => {
                let mut lp = self.table[list_index];
                lp.head = p.next;
                self.set_table(list_index, lp);
            },
        }
        proof {
            assert(self.slots@[i as int] == old(self).slots@[i as int]);
        }
        self.set_link(i, list_index, MultilistPointers::new());
        proof {
            self.order@ = self.order@.update(li, s.remove(k));
        }
        proof {
            let n0: int = if k < n - 1 {
                s[k + 1] as int
            } else {
                -1
            };
            let p0: int = if k > 0 {
                s[k - 1] as int
            } else {
                -1
            };
            assert(self.order@ == old(self).order@.update(li, s.remove(k)));
            assert(self.slots@.len() == old(self).slots@.len());
            assert(self.table@.len() == old(self).table@.len());
            assert(forall|j: int|
                0 <= j < self.slots@.len() && j != i as int && j != n0 && j != p0
                    ==> self.slots@[j] == old(self).slots@[j]);
            assert(self.slots@[i as int] is Some);
            assert(self.slots@[i as int].unwrap().value == old(self).slots@[i as int].unwrap().value);
            assert(self.slots@[i as int].unwrap().links@ == old(self).slots@[i as int].unwrap().links@.update(li, self.slots@[i as int].unwrap().links@[li]));
            assert(self.slots@[i as int].unwrap().links@[li].cleared());
            if k < n - 1 {
                assert(self.slots@[n0] is Some);
                assert(self.slots@[n0].unwrap().value == old(self).slots@[n0].unwrap().value);
                assert(self.slots@[n0].unwrap().links@ == old(self).slots@[n0].unwrap().links@.update(li, self.slots@[n0].unwrap().links@[li]));
                assert(self.slots@[n0].unwrap().links@[li] == (MultilistPointers {
                    linked: true,
                    next: if k + 1 == n - 1 {
                        None
                    } else {
                        Some(s[k + 2])
                    },
                    prev: if k == 0 {
                        None
                    } else {
                        Some(s[k - 1])
                    },
                }));
            }
            if k > 0 {
                assert(self.slots@[p0] is Some);
                assert(self.slots@[p0].unwrap().value == old(self).slots@[p0].unwrap().value);
                assert(self.slots@[p0].unwrap().links@ == old(self).slots@[p0].unwrap().links@.update(li, self.slots@[p0].unwrap().links@[li]));
                assert(self.slots@[p0].unwrap().links@[li] == (MultilistPointers {
                    linked: true,
                    next: if k == n - 1 {
                        None
                    } else {
                        Some(s[k + 1])
                    },
                    prev: if k == 1 {
                        None
                    } else {
                        Some(s[k - 2])
                    },
                }));
            }
            assert(self.table@[li].head == (if k > 0 {
                Some(s[0])
            } else if n == 1 {
                None::<usize>
            } else {
                Some(s[1])
            }));
            assert(self.table@[li].tail == (if k < n - 1 {
                Some(s[n - 1])
            } else if k == 0 {
                None::<usize>
            } else {
                Some(s[k - 1])
            }));
            assert(forall|l: int|
                0 <= l < self.table@.len() && l != li ==> self.table@[l] == old(self).table@[l]);
            Self::lemma_unlink(*old(self), *self, li, i, k);
        }
    }

    /// Proof that the unlink surgery for position `k` of list `li`
    /// re-establishes the container invariant. The preconditions summarise
    /// the state after the removed slot's neighbours (or the head/tail table)
    /// have been re-stitched and the slot's own link pair cleared.
    #[verifier::spinoff_prover]
    #[verifier::rlimit(100)]
    proof fn lemma_unlink(m0: Multilist<V>, m1: Multilist<V>, li: int, i: usize, k: int)
        requires
            m0.wf(),
            0 <= li < m0.table@.len(),
            0 <= k < m0.order@[li].len(),
            m0.order@[li][k] == i,
            m1.order@ == m0.order@.update(li, m0.order@[li].remove(k)),
            m1.slots@.len() == m0.slots@.len(),
            m1.table@.len() == m0.table@.len(),
            forall|j: int|
                0 <= j < m1.slots@.len() && j != i as int && j != unlink_next(m0.order@[li], k)
                    && j != unlink_prev(m0.order@[li], k) ==> m1.slots@[j] == m0.slots@[j],
            m1.slots@[i as int] is Some,
            m1.slots@[i as int].unwrap().value == m0.slots@[i as int].unwrap().value,
            m1.slots@[i as int].unwrap().links@ == m0.slots@[i as int].unwrap().links@.update(
                li,
                m1.slots@[i as int].unwrap().links@[li],
            ),
            m1.slots@[i as int].unwrap().links@[li].cleared(),
            k < m0.order@[li].len() - 1 ==> m1.slots@[unlink_next(m0.order@[li], k)] is Some,
            k < m0.order@[li].len() - 1 ==> m1.slots@[unlink_next(m0.order@[li], k)].unwrap().value
                == m0.slots@[unlink_next(m0.order@[li], k)].unwrap().value,
            k < m0.order@[li].len() - 1 ==> m1.slots@[unlink_next(m0.order@[li], k)].unwrap().links@
                == m0.slots@[unlink_next(m0.order@[li], k)].unwrap().links@.update(
                li,
                m1.slots@[unlink_next(m0.order@[li], k)].unwrap().links@[li],
            ),
            k < m0.order@[li].len() - 1 ==> m1.slots@[unlink_next(
                m0.order@[li],
                k,
            )].unwrap().links@[li] == (MultilistPointers {
                linked: true,
                next: if k + 1 == m0.order@[li].len() - 1 {
                    None
                } else {
                    Some(m0.order@[li][k + 2])
                },
                prev: if k == 0 {
                    None
                } else {
                    Some(m0.order@[li][k - 1])
                },
            }),
            k > 0 ==> m1.slots@[unlink_prev(m0.order@[li], k)] is Some,
            k > 0 ==> m1.slots@[unlink_prev(m0.order@[li], k)].unwrap().value == m0.slots@[
                unlink_prev(m0.order@[li], k)
            ].unwrap().value,
            k > 0 ==> m1.slots@[unlink_prev(m0.order@[li], k)].unwrap().links@ == m0.slots@[
                unlink_prev(m0.order@[li], k)
            ].unwrap().links@.update(
                li,
                m1.slots@[unlink_prev(m0.order@[li], k)].unwrap().links@[li],
            ),
            k > 0 ==> m1.slots@[unlink_prev(m0.order@[li], k)].unwrap().links@[li]
                == (MultilistPointers {
                linked: true,
                next: if k == m0.order@[li].len() - 1 {
                    None
                } else {
                    Some(m0.order@[li][k + 1])
                },
                prev: if k == 1 {
                    None
                } else {
                    Some(m0.order@[li][k - 2])
                },
            }),
            m1.table@[li].head == (if k > 0 {
                Some(m0.order@[li][0])
            } else if m0.order@[li].len() == 1 {
                None::<usize>
            } else {
                Some(m0.order@[li][1])
            }),
            m1.table@[li].tail == (if k < m0.order@[li].len() - 1 {
                Some(m0.order@[li][m0.order@[li].len() - 1])
            } else if k == 0 {
                None::<usize>
            } else {
                Some(m0.order@[li][k - 1])
            }),
            forall|l: int| 0 <= l < m1.table@.len() && l != li ==> m1.table@[l] == m0.table@[l],
        ensures
            m1.wf(),
            forall|j: int| #[trigger] m1.occupied(j) == m0.occupied(j),
            forall|j: int| m0.occupied(j) ==> #[trigger] m1.value_at(j) == m0.value_at(j),
            m1.order@[li] == m0.order@[li].remove_value(i),
            !m1.order@[li].contains(i),
            forall|x: usize|
                x != i ==> #[trigger] m1.order@[li].contains(x) == m0.order@[li].contains(x),
    {
        let s = m0.order@[li];
        let s2 = m1.order@[li];
        let n = s.len() as int;
        let n0 = unlink_next(s, k);
        let p0 = unlink_prev(s, k);
        assert(m0.slots.len() == m0.slots@.len());
        assert(m1.slots.len() == m1.slots@.len());
        assert(m0.list_inv(li));
        assert(s.contains(s[k]));
        assert(m0.occupied(s[k] as int));
        assert(m0.slot_inv(i as int));
        s.remove_ensures(k);
        assert(s2 == s.remove(k));
        assert(s2.len() == n - 1);
        assert(forall|j: int| 0 <= j < k ==> #[trigger] s2[j] == s[j]);
        assert(forall|j: int| k <= j < n - 1 ==> #[trigger] s2[j] == s[j + 1]);
        if k < n - 1 {
            assert(s.contains(s[k + 1]));
            assert(m0.occupied(n0));
            assert(m0.slot_inv(n0));
            assert(s[k + 1] != i);
        }
        if k > 0 {
            assert(s.contains(s[k - 1]));
            assert(m0.occupied(p0));
            assert(m0.slot_inv(p0));
            assert(s[k - 1] != i);
        }
        // Index uniqueness: `k` is the only position of `i`, so it is both
        // the chosen index and the first one.
        assert forall|j: int| 0 <= j < n && #[trigger] s[j] == i implies j == k by {
            if j != k {
                assert(s[j] != s[k]);
            }
        }
        s.index_of_first_ensures(i);
        assert(s.index_of_first(i) == Some(k));
        assert(s2 == s.remove_value(i));
        // Membership facts.
        assert forall|x: usize| x != i implies #[trigger] s2.contains(x) == s.contains(x) by {
            if s.contains(x) {
                let w = choose|w: int| 0 <= w < s.len() && s[w] == x;
                if w < k {
                    assert(s2[w] == x);
                } else {
                    assert(w != k);
                    assert(s2[w - 1] == x);
                }
                assert(s2.contains(x));
            }
            if s2.contains(x) {
                let w = choose|w: int| 0 <= w < s2.len() && s2[w] == x;
                if w < k {
                    assert(s[w] == x);
                } else {
                    assert(s[w + 1] == x);
                }
                assert(s.contains(x));
            }
        }
        assert(!s2.contains(i)) by {
            if s2.contains(i) {
                let w = choose|w: int| 0 <= w < s2.len() && s2[w] == i;
                if w < k {
                    assert(s[w] == i);
                } else {
                    assert(s[w + 1] == i);
                }
            }
        }
        // Every slot keeps its occupancy and value.
        assert forall|j: int| #[trigger] m1.occupied(j) == m0.occupied(j) by {
            if 0 <= j < m1.slots@.len() && j != i as int && j != n0 && j != p0 {
                assert(m1.slots@[j] == m0.slots@[j]);
            }
        }
        assert forall|j: int| m0.occupied(j) implies #[trigger] m1.value_at(j) == m0.value_at(
            j,
        ) by {
            if j != i as int && j != n0 && j != p0 {
                assert(m1.slots@[j] == m0.slots@[j]);
            }
        }
        // Slot invariants.
        assert forall|j: int| 0 <= j < m1.slots@.len() implies #[trigger] m1.slot_inv(j) by {
            assert(m0.slot_inv(j));
            if m1.slots@[j] is Some {
                let links0 = m0.slots@[j].unwrap().links@;
                let links1 = m1.slots@[j].unwrap().links@;
                assert(m0.occupied(j));
                assert(links0.len() == m0.table@.len());
                if j != i as int && j != n0 && j != p0 {
                    assert(m1.slots@[j] == m0.slots@[j]);
                }
                assert(links1.len() == m1.table@.len());
                assert forall|l: int|
                    0 <= l < links1.len() implies ((#[trigger] links1[l]).linked
                    <==> m1.order@[l].contains(j as usize)) && (!links1[l].linked ==> links1[l].next
                    is None && links1[l].prev is None) by {
                    assert(links0[l].linked <==> m0.order@[l].contains(j as usize));
                    if l != li {
                        assert(links1[l] == links0[l]);
                        assert(m1.order@[l] == m0.order@[l]);
                    } else {
                        if j == i as int {
                            assert(!links1[li].linked);
                            assert(!s2.contains(i));
                        } else {
                            let x = j as usize;
                            assert(x != i);
                            assert(s2.contains(x) == s.contains(x));
                            if j == n0 || j == p0 {
                                assert(links1[li].linked);
                                assert(s.contains(x));
                            } else {
                                assert(links1[l] == links0[l]);
                            }
                        }
                    }
                }
            }
        }
        // List invariants.
        assert forall|l: int| 0 <= l < m1.table@.len() implies #[trigger] m1.list_inv(l) by {
            assert(m0.list_inv(l));
            if l != li {
                let sl = m1.order@[l];
                assert(sl == m0.order@[l]);
                assert(m1.table@[l] == m0.table@[l]);
                assert forall|k2: int| #![trigger sl[k2]] 0 <= k2 < sl.len() implies m1.occupied(
                    sl[k2] as int,
                ) && m1.link_of(sl[k2] as int, l) == m0.link_of(sl[k2] as int, l) by {
                    assert(m0.occupied(sl[k2] as int));
                    let x = sl[k2] as int;
                    if x == i as int || x == n0 || x == p0 {
                        assert(m1.slots@[x].unwrap().links@[l] == m0.slots@[x].unwrap().links@[l]);
                    } else {
                        assert(m1.slots@[x] == m0.slots@[x]);
                    }
                }
            } else {
                assert forall|k1: int, k2: int| 0 <= k1 < k2 < s2.len() implies s2[k1]
                    != s2[k2] by {
                    let w1: int = if k1 < k { k1 } else { k1 + 1 };
                    let w2: int = if k2 < k { k2 } else { k2 + 1 };
                    assert(s2[k1] == s[w1]);
                    assert(s2[k2] == s[w2]);
                }
                assert(s2.no_duplicates());
                assert forall|j: int| #![trigger s2[j]] 0 <= j < s2.len() implies m1.occupied(
                    s2[j] as int,
                ) by {
                    let w: int = if j < k { j } else { j + 1 };
                    assert(s2[j] == s[w]);
                    assert(m0.occupied(s[w] as int));
                }
                assert forall|j: int| #![trigger m1.link_of(s2[j] as int, l)]
                    0 <= j < s2.len() implies m1.link_of(s2[j] as int, l) == (MultilistPointers {
                    linked: true,
                    next: if j == s2.len() - 1 {
                        None
                    } else {
                        Some(s2[j + 1])
                    },
                    prev: if j == 0 {
                        None
                    } else {
                        Some(s2[j - 1])
                    },
                }) by {
                    let w: int = if j < k { j } else { j + 1 };
                    assert(s2[j] == s[w]);
                    let x = s[w] as int;
                    assert(m0.occupied(x));
                    if j == k - 1 {
                        assert(x == p0);
                        if j < s2.len() - 1 {
                            assert(s2[j + 1] == s[k + 1]);
                        }
                        if j > 0 {
                            assert(s2[j - 1] == s[k - 2]);
                        }
                    } else if j == k {
                        assert(x == n0);
                        if j < s2.len() - 1 {
                            assert(s2[j + 1] == s[k + 2]);
                        }
                        if j > 0 {
                            assert(s2[j - 1] == s[k - 1]);
                        }
                    } else {
                        assert(w != k && w != k - 1 && w != k + 1);
                        assert(s[w] != s[k]);
                        if k > 0 {
                            assert(s[w] != s[k - 1]);
                        }
                        if k < n - 1 {
                            assert(s[w] != s[k + 1]);
                        }
                        assert(m1.slots@[x] == m0.slots@[x]);
                        assert(m0.link_of(x, li) == (MultilistPointers {
                            linked: true,
                            next: if w == n - 1 {
                                None
                            } else {
                                Some(s[w + 1])
                            },
                            prev: if w == 0 {
                                None
                            } else {
                                Some(s[w - 1])
                            },
                        }));
                        if j < k - 1 {
                            assert(s2[j + 1] == s[w + 1]);
                            if j > 0 {
                                assert(s2[j - 1] == s[w - 1]);
                            }
                        } else {
                            assert(j > k);
                            assert(w == j + 1);
                            if j < s2.len() - 1 {
                                assert(s2[j + 1] == s[w + 1]);
                            }
                            assert(s2[j - 1] == s[w - 1]);
                        }
                    }
                }
                assert(m1.table@[li].head == (if s2.len() == 0 {
                    None::<usize>
                } else {
                    Some(s2[0])
                }));
                assert(m1.table@[li].tail == (if s2.len() == 0 {
                    None::<usize>
                } else {
                    Some(s2[s2.len() - 1])
                }));
            }
        }
        assert(m1.wf());
    }

    /// Removes the tail element of list `list_index` from every list it is a
    /// member of, frees its storage slot and returns its value; returns
    /// `None` when the list is empty. This is the only operation that
    /// retires an element's storage.
    pub fn pop_back(&mut self, list_index: usize) -> (r: Option<V>)
        requires
            old(self).wf(),
            list_index < old(self).num_lists(),
        ensures
            final(self).wf(),
            final(self).num_lists() == old(self).num_lists(),
            final(self).slot_count() == old(self).slot_count(),
            old(self).list_at(list_index as int).len() == 0 ==> r is None && *final(self) == *old(self),
            old(self).list_at(list_index as int).len() > 0 ==> {
                let t = old(self).list_at(list_index as int).last();
                &&& r == Some(old(self).value_at(t as int))
                &&& final(self).list_at(list_index as int) == old(self).list_at(
                    list_index as int,
                ).drop_last()
                &&& final(self).values_at(list_index as int) == old(self).values_at(
                    list_index as int,
                ).drop_last()
                &&& !final(self).occupied(t as int)
                &&& forall|l: int|
                    0 <= l < old(self).num_lists() ==> #[trigger] final(self).list_at(l) == (
                    if old(self).member(t, l) {
                        old(self).list_at(l).remove_value(t)
                    } else {
                        old(self).list_at(l)
                    })
                &&& forall|l: int|
                    0 <= l < old(self).num_lists() ==> !(#[trigger] final(self).member(t, l))
                &&& forall|i: int|
                    i != t as int ==> #[trigger] final(self).occupied(i) == old(self).occupied(i)
                &&& forall|i: int|
                    i != t as int && old(self).occupied(i) ==> #[trigger] final(self).value_at(i)
                        == old(self).value_at(i)
            },
    {
        let ghost li = list_index as int;
        let ghost s0 = old(self).list_at(li);
        proof {
            assert(old(self).list_inv(li));
        }
        let tail_opt = self.table[list_index].tail;
        let t: usize = match tail_opt {
            None => {
                proof {
                    assert(s0.len() == 0);
                }
                return None;
            },
            Some(tt) => tt,
        };
        proof {
            assert(s0.len() > 0);
            assert(t == s0.last());
            assert(s0.contains(t));
            assert(old(self).occupied(t as int));
        }
        let e = MultilistElement { index: t };
        let lc = self.table.len();
        let mut idx: usize = 0;
        while idx < lc
            invariant
                self.wf(),
                lc == self.num_lists(),
                lc == old(self).num_lists(),
                idx <= lc,
                e.id() == t,
                self.slot_count() == old(self).slot_count(),
                self.occupied(t as int),
                self.value_at(t as int) == old(self).value_at(t as int),
                forall|l: int|
                    0 <= l < idx ==> #[trigger] self.list_at(l) == old(self).list_at(
                        l,
                    ).remove_value(t),
                forall|l: int| 0 <= l < idx ==> !(#[trigger] self.member(t, l)),
                forall|l: int| idx <= l < lc ==> #[trigger] self.list_at(l) == old(self).list_at(l),
                forall|i: int|
                    i != t as int ==> #[trigger] self.occupied(i) == old(self).occupied(i),
                forall|i: int|
                    i != t as int && old(self).occupied(i) ==> #[trigger] self.value_at(i) == old(self).value_at(i),
            decreases lc - idx,
        {
            let ghost pre = *self;
            proof {
                assert(self.slot_inv(t as int));
            }
            let pl = self.link_at(t, idx);
            proof {
                assert(pl.linked <==> self.member(t, idx as int));
            }
            if pl.linked {
                self.remove_existing(idx, e);
            } else {
                proof {
                    let sl = self.list_at(idx as int);
                    sl.index_of_first_ensures(t);
                    assert(sl.remove_value(t) == sl);
                }
            }
            proof {
                assert(!self.member(t, idx as int));
                assert forall|l: int| 0 <= l < idx implies !(#[trigger] self.member(t, l)) by {
                    assert(self.list_at(l) == pre.list_at(l));
                    assert(!pre.member(t, l));
                }
                assert forall|l: int|
                    0 <= l < idx + 1 implies #[trigger] self.list_at(l) == old(self).list_at(
                    l,
                ).remove_value(t) by {
                    if l < idx {
                        assert(self.list_at(l) == pre.list_at(l));
                    }
                }
            }
            idx = idx + 1;
        }
        let ghost mid = *self;
        let slot_ref = &mut self.slots[t];
        let taken = slot_ref.take();
        proof {
            assert(taken == mid.slots@[t as int]);
            assert(self.slots@ == mid.slots@.update(t as int, None::<ElementSlot<V>>));
            assert(self.order@ == mid.order@);
            assert(self.table@ == mid.table@);
            assert forall|j: int| 0 <= j < self.slots@.len() implies #[trigger] self.slot_inv(
                j,
            ) by {
                assert(mid.slot_inv(j));
                if j != t as int {
                    assert(self.slots@[j] == mid.slots@[j]);
                }
            }
            assert forall|l: int| 0 <= l < self.table@.len() implies #[trigger] self.list_inv(
                l,
            ) by {
                assert(mid.list_inv(l));
                let sl = self.order@[l];
                assert(sl == mid.order@[l]);
                assert(!mid.member(t, l));
                assert forall|k2: int| #![trigger sl[k2]] 0 <= k2 < sl.len() implies self.occupied(
                    sl[k2] as int,
                ) && self.link_of(sl[k2] as int, l) == mid.link_of(sl[k2] as int, l) by {
                    assert(mid.occupied(sl[k2] as int));
                    assert(sl.contains(sl[k2]));
                    assert(sl[k2] != t);
                    assert(self.slots@[sl[k2] as int] == mid.slots@[sl[k2] as int]);
                }
            }
            assert(self.wf());
            assert(taken is Some);
            assert(taken.unwrap().value == old(self).value_at(t as int));
            assert(!self.occupied(t as int));
            assert forall|l: int| 0 <= l < self.table@.len() implies !(#[trigger] self.member(
                t,
                l,
            )) by {
                assert(self.list_at(l) == mid.list_at(l));
                assert(!mid.member(t, l));
            }
            assert forall|l: int|
                0 <= l < lc implies #[trigger] self.list_at(l) == (if old(self).member(t, l) {
                old(self).list_at(l).remove_value(t)
            } else {
                old(self).list_at(l)
            }) by {
                assert(mid.list_at(l) == old(self).list_at(l).remove_value(t));
                assert(self.list_at(l) == mid.list_at(l));
                if !old(self).member(t, l) {
                    assert(old(self).list_inv(l));
                    lemma_remove_value_membership(old(self).list_at(l), t);
                }
            }
            // For the popped list itself, removing the tail value is the
            // same as dropping the last position: the tail occurs only once.
            assert(self.list_at(li) =~= s0.drop_last()) by {
                s0.index_of_first_ensures(t);
                let k0 = s0.index_of_first(t).unwrap();
                assert(s0[k0] == t);
                if k0 != s0.len() - 1 {
                    assert(s0[k0] != s0[s0.len() - 1]);
                }
                s0.remove_ensures(k0);
                assert(self.list_at(li) == s0.remove(k0));
            }
            // And the same at the value level.
            assert(self.values_at(li) =~= old(self).values_at(li).drop_last()) by {
                let s1 = self.list_at(li);
                let f1 = |x: usize| self.value_at(x as int);
                let f0 = |x: usize| old(self).value_at(x as int);
                assert forall|j: int| 0 <= j < s1.len() implies s1.map_values(f1)[j]
                    == old(self).values_at(li).drop_last()[j] by {
                    assert(s1[j] == s0[j]);
                    assert(s0[j] != s0[s0.len() - 1]);
                    assert(old(self).occupied(s0[j] as int));
                    assert(mid.occupied(s0[j] as int) && mid.value_at(s0[j] as int) == old(self).value_at(s0[j] as int));
                    assert(self.slots@[s0[j] as int] == mid.slots@[s0[j] as int]);
                    assert(s0.map_values(f0)[j] == f0(s0[j]));
                    assert(f1(s1[j]) == f0(s0[j]));
                }
            }
            assert forall|i2: int| i2 != t as int implies #[trigger] self.occupied(i2) == old(self).occupied(i2) by {
                assert(mid.occupied(i2) == old(self).occupied(i2));
                if 0 <= i2 < self.slots@.len() {
                    assert(self.slots@[i2] == mid.slots@[i2]);
                }
            }
            assert forall|i2: int| i2 != t as int && old(self).occupied(i2) implies #[trigger] self.value_at(
                i2,
            ) == old(self).value_at(i2) by {
                assert(mid.occupied(i2) && mid.value_at(i2) == old(self).value_at(i2));
                assert(self.slots@[i2] == mid.slots@[i2]);
            }
        }
        match taken {
            Some(slot) => Some(slot.value),
            None => None,
        }
    }

    /// Immutable access to the value stored in the element that `element`
    /// names.
    pub fn get(&self, element: MultilistElement) -> (v: &V)
        requires
            self.wf(),
            self.valid_element(element),
        ensures
            *v == self.value_at(element.id() as int),
    {
        match &self.slots[element.index] {
            Some(s) => &s.value,
            None => vstd::pervasive::unreached(),
        }
    }

    /// Returns an iterator over list `list_index`, seeded at its head.
    pub fn iter(&self, list_index: usize) -> (it: MultilistIterator)
        requires
            self.wf(),
            list_index < self.num_lists(),
        ensures
            it.valid_for(*self),
            it.list() == list_index,
            it.position() == 0,
    {
        proof {
            assert(self.list_inv(list_index as int));
        }
        MultilistIterator { current: self.table[list_index].head, list_index, pos: Ghost(0) }
    }

    /// Checked form of [`Multilist::push_back_existing`]: attaches only when
    /// the list index is in range, the handle names a live element, and the
    /// element is not already a member of that list. Returns whether the
    /// attachment happened; on `false` the multilist is unchanged.
    pub fn try_push_back_existing(
        &mut self,
        list_index: usize,
        element: MultilistElement,
    ) -> (ok: bool)
        requires
            old(self).wf(),
        ensures
            final(self).wf(),
            ok == (list_index < old(self).num_lists() && old(self).valid_element(element) && !old(self).member(element.id(), list_index as int)),
            !ok ==> *final(self) == *old(self),
            ok ==> final(self).num_lists() == old(self).num_lists() && final(self).slot_count()
                == old(self).slot_count() && final(self).list_at(list_index as int) == old(self).list_at(list_index as int).push(element.id()),
            ok ==> forall|l: int|
                0 <= l < old(self).num_lists() && l != list_index ==> #[trigger] final(self).list_at(l) == old(self).list_at(l),
            ok ==> forall|i: int| #[trigger] final(self).occupied(i) == old(self).occupied(i),
            ok ==> forall|i: int|
                old(self).occupied(i) ==> #[trigger] final(self).value_at(i) == old(self).value_at(
                    i,
                ),
    {
        if list_index >= self.table.len() {
            return false;
        }
        if element.index >= self.slots.len() {
            return false;
        }
        let live = match &self.slots[element.index] {
            Some(_) => true,
            None => false,
        };
        if !live {
            return false;
        }
        proof {
            assert(self.slot_inv(element.index as int));
        }
        let pl = self.link_at(element.index, list_index);
        if pl.linked {
            proof {
                assert(self.member(element.id(), list_index as int));
            }
            return false;
        }
        self.push_back_existing(list_index, element);
        true
    }

    /// Checked form of [`Multilist::remove_existing`]: detaches only when
    /// the list index is in range, the handle names a live element, and the
    /// element is a member of that list. Returns whether the detachment
    /// happened; on `false` the multilist is unchanged.
    pub fn try_remove_existing(
        &mut self,
        list_index: usize,
        element: MultilistElement,
    ) -> (ok: bool)
        requires
            old(self).wf(),
        ensures
            final(self).wf(),
            ok == (list_index < old(self).num_lists() && old(self).valid_element(element) && old(self).member(element.id(), list_index as int)),
            !ok ==> *final(self) == *old(self),
            ok ==> final(self).num_lists() == old(self).num_lists() && final(self).slot_count()
                == old(self).slot_count() && final(self).list_at(list_index as int) == old(self).list_at(list_index as int).remove_value(element.id()) && !final(self).member(
                element.id(),
                list_index as int,
            ),
            ok ==> forall|l: int|
                0 <= l < old(self).num_lists() && l != list_index ==> #[trigger] final(self).list_at(l) == old(self).list_at(l),
            ok ==> forall|i: int| #[trigger] final(self).occupied(i) == old(self).occupied(i),
            ok ==> forall|i: int|
                old(self).occupied(i) ==> #[trigger] final(self).value_at(i) == old(self).value_at(
                    i,
                ),
    {
        if list_index >= self.table.len() {
            return false;
        }
        if element.index >= self.slots.len() {
            return false;
        }
        let live = match &self.slots[element.index] {
            Some(_) => true,
            None => false,
        };
        if !live {
            return false;
        }
        proof {
            assert(self.slot_inv(element.index as int));
        }
        let pl = self.link_at(element.index, list_index);
        if !pl.linked {
            proof {
                assert(!self.member(element.id(), list_index as int));
            }
            return false;
        }
        self.remove_existing(list_index, element);
        true
    }

    /// Drains every list by repeatedly popping, so that each element that
    /// was a member of at least one list is freed exactly once. Elements
    /// that were already members of no list (detached from their last list
    /// by [`Multilist::remove_existing`]) are untouched: only a pop frees
    /// storage.
    pub fn clear(&mut self)
        requires
            old(self).wf(),
        ensures
            final(self).wf(),
            final(self).num_lists() == old(self).num_lists(),
            final(self).slot_count() == old(self).slot_count(),
            forall|l: int|
                0 <= l < old(self).num_lists() ==> #[trigger] final(self).list_at(l).len() == 0,
            forall|i: int|
                #[trigger] final(self).occupied(i) ==> old(self).occupied(i) && final(self).value_at(i) == old(self).value_at(i),
            forall|i: int|
                #[trigger] final(self).occupied(i) ==> (forall|l: int|
                    0 <= l < old(self).num_lists() ==> !(#[trigger] old(self).member(
                        i as usize,
                        l,
                    ))),
            forall|i: int|
                old(self).occupied(i) && (forall|l: int|
                    0 <= l < old(self).num_lists() ==> !(#[trigger] old(self).member(
                        i as usize,
                        l,
                    ))) ==> #[trigger] final(self).occupied(i),
    {
        let lc = self.table.len();
        let mut l: usize = 0;
        while l < lc
            invariant
                self.wf(),
                l <= lc,
                lc == self.num_lists(),
                lc == old(self).num_lists(),
                self.slot_count() == old(self).slot_count(),
                forall|l2: int| 0 <= l2 < l ==> #[trigger] self.list_at(l2).len() == 0,
                forall|i: int|
                    #[trigger] self.occupied(i) ==> old(self).occupied(i) && self.value_at(i)
                        == old(self).value_at(i),
                forall|x: usize, l2: int|
                    0 <= l2 < lc && self.occupied(x as int) ==> #[trigger] self.member(x, l2)
                        == old(self).member(x, l2),
                forall|i: int|
                    old(self).occupied(i) && (forall|l2: int|
                        0 <= l2 < lc ==> !(#[trigger] old(self).member(i as usize, l2)))
                        ==> #[trigger] self.occupied(i),
            decreases lc - l,
        {
            while !self.is_empty(l)
                invariant
                    self.wf(),
                    l < lc,
                    lc == self.num_lists(),
                    lc == old(self).num_lists(),
                    self.slot_count() == old(self).slot_count(),
                    forall|l2: int| 0 <= l2 < l ==> #[trigger] self.list_at(l2).len() == 0,
                    forall|i: int|
                        #[trigger] self.occupied(i) ==> old(self).occupied(i) && self.value_at(i)
                            == old(self).value_at(i),
                    forall|x: usize, l2: int|
                        0 <= l2 < lc && self.occupied(x as int) ==> #[trigger] self.member(x, l2)
                            == old(self).member(x, l2),
                    forall|i: int|
                        old(self).occupied(i) && (forall|l2: int|
                            0 <= l2 < lc ==> !(#[trigger] old(self).member(i as usize, l2)))
                            ==> #[trigger] self.occupied(i),
                decreases self.list_at(l as int).len(),
            {
                let ghost pre = *self;
                let ghost t = pre.list_at(l as int).last();
                proof {
                    assert(pre.list_at(l as int).len() > 0);
                    assert(pre.list_at(l as int).contains(t));
                    assert(pre.list_inv(l as int));
                    assert(pre.occupied(t as int));
                    assert(pre.member(t, l as int));
                }
                let popped = self.pop_back(l);
                proof {
                    assert(popped is Some);
                    assert(!self.occupied(t as int));
                    // The popped slot's list membership is gone everywhere;
                    // everything else is untouched.
                    assert forall|l2: int| 0 <= l2 < l implies #[trigger] self.list_at(l2).len()
                        == 0 by {
                        let sl = pre.list_at(l2);
                        assert(sl.len() == 0);
                        sl.index_of_first_ensures(t);
                        assert(self.list_at(l2) == sl.remove_value(t));
                    }
                    assert(self.list_at(l as int).len() == pre.list_at(l as int).len() - 1) by {
                        lemma_remove_value_membership(pre.list_at(l as int), t);
                    }
                    assert forall|i: int| #[trigger] self.occupied(i) implies old(self).occupied(i)
                        && self.value_at(i) == old(self).value_at(i) by {
                        assert(i != t as int);
                        assert(pre.occupied(i) == self.occupied(i));
                        assert(pre.value_at(i) == self.value_at(i));
                    }
                    assert forall|x: usize, l2: int|
                        0 <= l2 < lc && self.occupied(x as int) implies #[trigger] self.member(
                        x,
                        l2,
                    ) == old(self).member(x, l2) by {
                        assert(x as int != t as int);
                        assert(x != t);
                        assert(pre.occupied(x as int));
                        assert(pre.list_inv(l2));
                        lemma_remove_value_membership(pre.list_at(l2), t);
                        assert(self.list_at(l2) == pre.list_at(l2).remove_value(t));
                        assert(self.member(x, l2) == pre.member(x, l2));
                        assert(pre.member(x, l2) == old(self).member(x, l2));
                    }
                    assert forall|i: int|
                        old(self).occupied(i) && (forall|l2: int|
                            0 <= l2 < lc ==> !(#[trigger] old(self).member(i as usize, l2)))
                        implies #[trigger] self.occupied(i) by {
                        assert(pre.occupied(i));
                        assert(pre.slots.len() == pre.slots@.len());
                        assert(pre.member(t, l as int));
                        assert(old(self).member(t, l as int));
                        if i == t as int {
                            assert(i as usize == t);
                            assert(!old(self).member(i as usize, l as int));
                            assert(false);
                        }
                        assert(self.occupied(i) == pre.occupied(i));
                    }
                }
            }
            l = l + 1;
        }
        proof {
            assert(self.slots.len() == self.slots@.len());
            assert forall|i: int| #[trigger] self.occupied(i) implies (forall|l2: int|
                0 <= l2 < old(self).num_lists() ==> !(#[trigger] old(self).member(
                    i as usize,
                    l2,
                ))) by {
                assert forall|l2: int|
                    0 <= l2 < old(self).num_lists() implies !(#[trigger] old(self).member(
                    i as usize,
                    l2,
                )) by {
                    assert(self.list_at(l2).len() == 0);
                    assert(!self.member(i as usize, l2));
                    assert(self.occupied((i as usize) as int));
                    assert(self.member(i as usize, l2) == old(self).member(i as usize, l2));
                }
            }
        }
    }

    /// Law: an element whose storage slot is free is a member of no list, so
    /// a popped element can never be reached again through any list.
    pub proof fn lemma_freed_not_member(self, i: usize, l: int)
        requires
            self.wf(),
            !self.occupied(i as int),
            0 <= l < self.num_lists(),
        ensures
            !self.member(i, l),
    {
        assert(self.list_inv(l));
        if self.member(i, l) {
            let s = self.list_at(l);
            let w = choose|w: int| 0 <= w < s.len() && s[w] == i;
            assert(self.occupied(s[w] as int));
        }
    }

    /// Law: no list ever links the same element twice; membership of a list
    /// is duplicate-free.
    pub proof fn lemma_no_duplicate_linkage(self, l: int)
        requires
            self.wf(),
            0 <= l < self.num_lists(),
        ensures
            self.list_at(l).no_duplicates(),
    {
        assert(self.list_inv(l));
    }

}

/// Law: a value pushed onto an empty value sequence — as one
/// [`Multilist::push_back`] call on an empty list does — is that list's
/// sole content.
pub proof fn lemma_single_insertion<V>(v0: Seq<V>, a: V)
    requires
        v0.len() == 0,
    ensures
        v0.push(a) =~= seq![a],
{
}

/// Law: tail-append preserves insertion order. Pushing values `a`, `b`, `c`
/// (in that order) onto an empty value sequence — which is what three
/// [`Multilist::push_back`] calls on one list do to that list's value
/// sequence — yields exactly the value order `[a, b, c]`.
pub proof fn lemma_insertion_order<V>(v0: Seq<V>, a: V, b: V, c: V)
    requires
        v0.len() == 0,
    ensures
        v0.push(a).push(b).push(c) =~= seq![a, b, c],
{
}

/// A forward, non-restartable cursor over one list's chain of elements.
pub struct MultilistIterator {
    current: Option<usize>,
    list_index: usize,
    pos: Ghost<int>,
}

impl MultilistIterator {
    /// The index of the list being walked.
    pub closed spec fn list(self) -> int {
        self.list_index as int
    }

    /// How many elements have been yielded so far.
    pub closed spec fn position(self) -> int {
        self.pos@
    }

    /// True when the cursor is consistent with multilist `m`: it stands at
    /// `position()` of the walked list's order. Mutating the multilist
    /// invalidates the cursor.
    pub closed spec fn valid_for<V>(self, m: Multilist<V>) -> bool {
        &&& m.wf()
        &&& (self.list_index as int) < m.num_lists()
        &&& 0 <= self.pos@ <= m.list_at(self.list()).len()
        &&& self.current == (if self.pos@ < m.list_at(self.list()).len() {
            Some(m.list_at(self.list())[self.pos@])
        } else {
            None::<usize>
        })
    }

    /// Yields a handle to the next element of the walked list, or `None`
    /// past the end.
    pub fn next<V>(&mut self, m: &Multilist<V>) -> (r: Option<MultilistElement>)
        requires
            old(self).valid_for(*m),
        ensures
            final(self).valid_for(*m),
            final(self).list() == old(self).list(),
            old(self).position() < m.list_at(old(self).list()).len() ==> {
                &&& final(self).position() == old(self).position() + 1
                &&& r is Some
                &&& r.unwrap().id() == m.list_at(old(self).list())[old(self).position()]
                &&& m.valid_element(r.unwrap())
            },
            old(self).position() >= m.list_at(old(self).list()).len() ==> r is None && final(self).position() == old(self).position(),
    {
        match self.current {
            None => None,
            Some(i) => {
                let ghost li = self.list_index as int;
                proof {
                    assert(m.list_inv(li));
                    let s = m.list_at(li);
                    assert(s[self.pos@] == i);
                    assert(s.contains(s[self.pos@]));
                    assert(m.occupied(i as int));
                    assert(m.slot_inv(i as int));
                    assert(m.link_of(s[self.pos@] as int, li) == (MultilistPointers {
                        linked: true,
                        next: if self.pos@ == s.len() - 1 {
                            None
                        } else {
                            Some(s[self.pos@ + 1])
                        },
                        prev: if self.pos@ == 0 {
                            None
                        } else {
                            Some(s[self.pos@ - 1])
                        },
                    }));
                }
                let pl = m.link_at(i, self.list_index);
                self.current = pl.next;
                proof {
                    self.pos@ = self.pos@ + 1;
                }
                Some(MultilistElement { index: i })
            },
        }
    }
}


} // verus!
