//! A data pool: a `Vec` with stable pointers into it, plus deletion.
use vstd::prelude::*;
use std::collections::HashMap;

verus! {

broadcast use vstd::std_specs::hash::group_hash_axioms;

/// A dumb pointer.
pub type Ptr = usize;

/// The items held by the slots `s`, in slot order.
pub open spec fn present<T>(s: Seq<Option<T>>) -> Seq<T>
    decreases s.len(),
{
    if s.len() == 0 {
        Seq::empty()
    } else {
        let rest = present(s.drop_last());
        match s.last() {
            Some(v) => rest.push(v),
            None => rest,
        }
    }
}

/// The pointers of the slots of `s` that hold an item, in slot order.
pub open spec fn present_ids<T>(s: Seq<Option<T>>) -> Seq<usize>
    decreases s.len(),
{
    if s.len() == 0 {
        Seq::empty()
    } else {
        let rest = present_ids(s.drop_last());
        match s.last() {
            Some(v) => rest.push((s.len() - 1) as usize),
            None => rest,
        }
    }
}

/// The slots `s` with all empty slots taken out.
pub open spec fn compacted<T>(s: Seq<Option<T>>) -> Seq<Option<T>> {
    present(s).map_values(|v: T| Some(v))
}

/// Where `refactor` moves each filled slot of `s`: to the number of items
/// before it.
pub open spec fn refactor_map<T>(s: Seq<Option<T>>) -> Map<usize, usize> {
    Map::new(
        |i: usize| i < s.len() && s[i as int] is Some,
        |i: usize| present(s.take(i as int)).len() as usize,
    )
}

/// The items and pointers of a prefix grow by the next slot.
pub proof fn lemma_present_take<T>(s: Seq<Option<T>>, i: int)
    requires
        0 <= i < s.len(),
    ensures
        present(s.take(i + 1)) == match s[i] {
            Some(v) => present(s.take(i)).push(v),
            None => present(s.take(i)),
        },
        present_ids(s.take(i + 1)) == match s[i] {
            Some(v) => present_ids(s.take(i)).push(i as usize),
            None => present_ids(s.take(i)),
        },
{
    assert(s.take(i + 1).drop_last() == s.take(i));
}

/// There are as many items as pointers to them.
pub proof fn lemma_present_ids_len<T>(s: Seq<Option<T>>)
    requires
        s.len() <= usize::MAX,
    ensures
        present_ids(s).len() == present(s).len(),
        present(s).len() <= s.len(),
        forall|k: int| 0 <= k < present_ids(s).len() ==> #[trigger] present_ids(s)[k] < s.len()
            && s[present_ids(s)[k] as int] == Some(present(s)[k]),
    decreases s.len(),
{
    if s.len() > 0 {
        let t = s.drop_last();
        lemma_present_ids_len(t);
        assert forall|k: int| 0 <= k < present_ids(s).len() implies #[trigger] present_ids(s)[k] < s.len()
            && s[present_ids(s)[k] as int] == Some(present(s)[k]) by {
            match s.last() {
                Some(v) => {
                    assert(present(s) == present(t).push(v));
                    assert(present_ids(s) == present_ids(t).push((s.len() - 1) as usize));
                    if k < present_ids(t).len() {
                        assert(present_ids(s)[k] == present_ids(t)[k]);
                        assert(present(s)[k] == present(t)[k]);
                        assert(s[present_ids(t)[k] as int] == t[present_ids(t)[k] as int]);
                    } else {
                        assert(present(s)[k] == v);
                    }
                },
                None => {
                    assert(s[present_ids(t)[k] as int] == t[present_ids(t)[k] as int]);
                },
            }
        }
    }
}

/// Overwriting one slot changes the number of items by what it held and
/// what it holds now.
pub proof fn lemma_present_update_len<T>(s: Seq<Option<T>>, i: int, v: Option<T>)
    requires
        0 <= i < s.len(),
    ensures
        present(s.update(i, v)).len() + (if s[i] is Some { 1int } else { 0 }) == present(s).len() + (
        if v is Some { 1int } else { 0 }),
    decreases s.len(),
{
    let t = s.update(i, v);
    if i == s.len() - 1 {
        assert(t.drop_last() == s.drop_last());
    } else {
        assert(t.drop_last() == s.drop_last().update(i, v));
        lemma_present_update_len(s.drop_last(), i, v);
    }
}

/// Compacting slots keeps exactly the items, in order.
pub proof fn lemma_present_compacted<T>(s: Seq<Option<T>>)
    ensures
        present(compacted(s)) == present(s),
        compacted(s).len() == present(s).len(),
    decreases present(s).len(),
{
    let p = present(s);
    let c = compacted(s);
    if p.len() > 0 {
        let q = p.drop_last();
        assert(c.drop_last() == q.map_values(|v: T| Some(v)));
        lemma_present_of_somes(q);
        assert(present(c) == present(c.drop_last()).push(p.last()));
    }
}

/// Slots that all hold items hold exactly those items.
pub proof fn lemma_present_of_somes<T>(q: Seq<T>)
    ensures
        present(q.map_values(|v: T| Some(v))) == q,
    decreases q.len(),
{
    let c = q.map_values(|v: T| Some(v));
    if q.len() > 0 {
        assert(c.drop_last() == q.drop_last().map_values(|v: T| Some(v)));
        lemma_present_of_somes(q.drop_last());
        assert(q.drop_last().push(q.last()) == q);
    }
}

/// The items of the slots `s`, gathered from the front.
spec fn present_front<T>(s: Seq<Option<T>>) -> Seq<T>
    decreases s.len(),
{
    if s.len() == 0 {
        Seq::empty()
    } else {
        let rest = present_front(s.drop_first());
        match s[0] {
            Some(v) => seq![v] + rest,
            None => rest,
        }
    }
}

proof fn lemma_present_front_cons<T>()
    ensures
        forall|a: Seq<Option<T>>, b: Seq<Option<T>>|
            a.len() == 1 ==> #[trigger] present_front(a + b) == match a[0] {
                Some(v) => seq![v] + present_front(b),
                None => present_front(b),
            },
{
    assert forall|a: Seq<Option<T>>, b: Seq<Option<T>>| a.len() == 1 implies #[trigger] present_front(
        a + b,
    ) == match a[0] {
        Some(v) => seq![v] + present_front(b),
        None => present_front(b),
    } by {
        assert((a + b).drop_first() == b);
    }
}

proof fn lemma_present_front_last<T>(s: Seq<Option<T>>)
    requires
        s.len() > 0,
    ensures
        present_front(s) == match s.last() {
            Some(v) => present_front(s.drop_last()).push(v),
            None => present_front(s.drop_last()),
        },
    decreases s.len(),
{
    if s.len() > 1 {
        let t = s.drop_first();
        let d = s.drop_last();
        lemma_present_front_last(t);
        assert(d.drop_first() == t.drop_last());
        assert(t.last() == s.last());
        assert(d[0] == s[0]);
        assert(present_front(s) == match s[0] {
            Some(v) => seq![v] + present_front(t),
            None => present_front(t),
        });
        let a = present_front(t.drop_last());
        assert(present_front(d) == match s[0] {
            Some(v) => seq![v] + a,
            None => a,
        });
        match s.last() {
            Some(w) => {
                assert(present_front(t) == a.push(w));
                match s[0] {
                    Some(v) => {
                        assert(seq![v] + a.push(w) == (seq![v] + a).push(w));
                    },
                    None => {},
                }
            },
            None => {},
        }
    } else {
        assert(s.drop_last().len() == 0);
        assert(s.drop_first().len() == 0);
        assert(present_front(s.drop_first()) == Seq::<T>::empty());
        assert(present_front(s.drop_last()) == Seq::<T>::empty());
        assert(s.last() == s[0]);
        match s[0] {
            Some(v) => {
                assert(seq![v] + Seq::<T>::empty() == Seq::<T>::empty().push(v));
            },
            None => {},
        }
    }
}

proof fn lemma_present_front<T>(s: Seq<Option<T>>)
    ensures
        present_front(s) == present(s),
    decreases s.len(),
{
    if s.len() > 0 {
        lemma_present_front(s.drop_last());
        lemma_present_front_last(s);
    }
}

/// Gathers a mutable reference to each item of `slots`, front to back.
fn collect_mut<'a, T>(slots: &'a mut [Option<T>], items: &mut Vec<&'a mut T>)
    ensures
        final(items)@.len() == old(items)@.len() + present_front(old(slots)@).len(),
        forall|k: int| 0 <= k < old(items)@.len() ==> final(items)@[k] == old(items)@[k],
        forall|k: int|
            0 <= k < present_front(old(slots)@).len() ==> *final(items)@[old(items)@.len() + k]
                == present_front(old(slots)@)[k],
        final(slots)@.len() == old(slots)@.len(),
        forall|i: int|
            0 <= i < old(slots)@.len() ==> (#[trigger] final(slots)@[i] is Some) == (
            old(slots)@[i] is Some),
        present_front(final(slots)@).len() == present_front(old(slots)@).len(),
        forall|k: int|
            0 <= k < present_front(old(slots)@).len() ==> present_front(final(slots)@)[k]
                == *final(final(items)@[old(items)@.len() + k]),
    decreases old(slots)@.len(),
{
    if slots.len() == 0 {
        return;
    }
    proof {
        lemma_present_front_cons::<T>();
    }
    let (head, tail) = slots.split_at_mut(1);
    let h = head.first_mut().unwrap();
    match h.as_mut() {
        Some(x) => items.push(x),
        None => {},
    }
    collect_mut(tail, items);
}

/// A data pool. If you desire a `Vec`, and pointers into that `Vec`, plus
/// delete functionality, this is the data type to use.
#[derive(Debug, Clone)]
pub struct Pool<T> {
    data: Vec<Option<T>>,
    freed_ids: Vec<Ptr>,
}

impl<T> View for Pool<T> {
    type V = Seq<Option<T>>;

    /// The slots of the pool: an item, or `None` for a freed slot.
    closed spec fn view(&self) -> Seq<Option<T>> {
        self.data@
    }
}

impl<T: Clone> Pool<T> {
    /// Maps the old pointer of each item to its pointer after `refactor`.
    /// Get this before the actual refactor.
    pub fn get_refactor_mapping(&self) -> (mapping: HashMap<usize, usize>)
        requires
            self.wf(),
        ensures
            mapping@ == refactor_map(self@),
    {
        let mut mapping: HashMap<usize, usize> = HashMap::new();
        let mut offset: usize = 0;
        let mut i: usize = 0;
        let n = self.data.len();
        while i < n
            invariant
                i <= n,
                n == self@.len(),
                offset == i - present(self@.take(i as int)).len(),
                present(self@.take(i as int)).len() <= i,
                mapping@ == Map::new(
                    |k: usize| k < i && self@[k as int] is Some,
                    |k: usize| present(self@.take(k as int)).len() as usize,
                ),
            decreases n - i,
        {
            proof {
                lemma_present_take(self@, i as int);
                assert(self.data@ == self@);
            }
            if let Some(_) = self.get(i) {
                mapping.insert(i, i - offset);
            } else {
                offset = offset + 1;
            }
            i = i + 1;
            proof {
                assert(mapping@ =~= Map::new(
                    |k: usize| k < i && self@[k as int] is Some,
                    |k: usize| present(self@.take(k as int)).len() as usize,
                ));
            }
        }
        proof {
            assert(self@.take(n as int) == self@);
            assert(mapping@ =~= refactor_map(self@));
        }
        mapping
    }

    /// Cleans up all empty slots: the items move to the front, in order.
    /// WARNING: this invalidates all pointers stored elsewhere!
    pub fn refactor(&mut self)
        requires
            old(self).wf(),
        ensures
            final(self).wf(),
            final(self)@ == compacted(old(self)@),
            final(self).free_stack().len() == 0,
    {
        self.freed_ids.clear();
        let ghost s = self.data@;
        let n = self.data.len();
        let mut rev: Vec<Option<T>> = Vec::new();
        while self.data.len() > 0
            invariant
                n == s.len(),
                rev.len() + self.data.len() == n,
                self.freed_ids@.len() == 0,
                self.data@ == s.take(self.data.len() as int),
                forall|j: int| 0 <= j < rev.len() ==> #[trigger] rev@[j] == s[n - 1 - j],
            decreases self.data.len(),
        {
            let x = self.data.pop().unwrap();
            rev.push(x);
        }
        while rev.len() > 0
            invariant
                n == s.len(),
                rev.len() <= n,
                self.freed_ids@.len() == 0,
                forall|j: int| 0 <= j < rev.len() ==> #[trigger] rev@[j] == s[n - 1 - j],
                self.data@ == compacted(s.take(n - rev.len())),
            decreases rev.len(),
        {
            let ghost k = n - rev.len();
            let x = rev.pop().unwrap();
            proof {
                assert(x == s[k]);
                lemma_present_take(s, k);
            }
            if x.is_some() {
                self.data.push(x);
            }
            proof {
                assert(self.data@ =~= compacted(s.take(k + 1)));
            }
        }
        proof {
            assert(s.take(n as int) == s);
            lemma_present_compacted(s);
            assert(self.freed_ids@ == Seq::<usize>::empty());
        }
    }
}

impl<T> Pool<T> {
    /// The stack of freed slots; the last one is reused first.
    pub closed spec fn free_stack(&self) -> Seq<usize> {
        self.freed_ids@
    }

    /// The slot that the push after `n` further pushes takes: the freed
    /// slots from the top of the stack down, then new slots at the end.
    pub open spec fn next_slot(&self, n: nat) -> int {
        let fs = self.free_stack();
        if n < fs.len() {
            fs[fs.len() - 1 - n] as int
        } else {
            self@.len() + (n - fs.len())
        }
    }

    /// The slots after `push(item)`: the item in the next slot.
    pub open spec fn slots_after_push(&self, item: T) -> Seq<Option<T>> {
        if self.free_stack().len() > 0 {
            self@.update(self.next_slot(0), Some(item))
        } else {
            self@.push(Some(item))
        }
    }

    /// The freed slots are exactly the empty ones, each listed once.
    pub closed spec fn wf(&self) -> bool {
        &&& self.freed_ids@.no_duplicates()
        &&& forall|k: int|
            0 <= k < self.freed_ids.len() ==> #[trigger] self.freed_ids@[k] < self.data.len()
                && self.data@[self.freed_ids@[k] as int] is None
        &&& forall|i: int|
            0 <= i < self.data.len() && #[trigger] self.data@[i] is None ==> self.freed_ids@.contains(
                i as usize,
            )
        &&& self.freed_ids.len() + present(self.data@).len() == self.data.len()
    }

    /// A copy of the pool, slot for slot, with the same stack of freed
    /// slots.
    pub fn copy(&self) -> (c: Self)
        where
            T: Copy,
        ensures
            c@ == self@,
            c.free_stack() == self.free_stack(),
            c.wf() == self.wf(),
    {
        let mut data: Vec<Option<T>> = Vec::new();
        let mut i: usize = 0;
        while i < self.data.len()
            invariant
                i <= self.data.len(),
                data@ == self.data@.take(i as int),
            decreases self.data.len() - i,
        {
            data.push(self.data[i]);
            i = i + 1;
            proof {
                assert(data@ =~= self.data@.take(i as int));
            }
        }
        let mut freed_ids: Vec<Ptr> = Vec::new();
        let mut k: usize = 0;
        while k < self.freed_ids.len()
            invariant
                k <= self.freed_ids.len(),
                freed_ids@ == self.freed_ids@.take(k as int),
            decreases self.freed_ids.len() - k,
        {
            freed_ids.push(self.freed_ids[k]);
            k = k + 1;
            proof {
                assert(freed_ids@ =~= self.freed_ids@.take(k as int));
            }
        }
        proof {
            assert(data@ =~= self.data@);
            assert(freed_ids@ =~= self.freed_ids@);
        }
        Self { data, freed_ids }
    }

    pub fn new() -> (pool: Self)
        ensures
            pool.wf(),
            pool@ == Seq::<Option<T>>::empty(),
            pool.free_stack() == Seq::<usize>::empty(),
    {
        Self { data: Vec::new(), freed_ids: Vec::new() }
    }

    pub fn with_capacity(cap: usize) -> (pool: Self)
        ensures
            pool.wf(),
            pool@ == Seq::<Option<T>>::empty(),
            pool.free_stack() == Seq::<usize>::empty(),
    {
        Self { data: Vec::with_capacity(cap), freed_ids: Vec::new() }
    }

    /// The number of items.
    pub fn len(&self) -> (n: usize)
        requires
            self.wf(),
        ensures
            n == present(self@).len(),
    {
        self.data.len() - self.freed_ids.len()
    }

    /// True only for a pool that never held an item (or was refactored
    /// after all its items were deleted).
    pub fn is_empty(&self) -> (res: bool)
        requires
            self.wf(),
        ensures
            res == (self@.len() == 0),
    {
        proof {
            if self.data.len() == 0 && self.freed_ids.len() > 0 {
                assert(self.freed_ids@[0] < self.data.len());
            }
        }
        self.data.is_empty() && self.freed_ids.is_empty()
    }

    /// True where some slot is empty.
    pub fn is_fragmented(&self) -> (res: bool)
        requires
            self.wf(),
        ensures
            res == (self.free_stack().len() > 0),
            res == exists|i: int| 0 <= i < self@.len() && #[trigger] self@[i] is None,
    {
        proof {
            if self.freed_ids.len() > 0 {
                assert(self@[self.freed_ids@[0] as int] is None);
            }
            if exists|i: int| 0 <= i < self@.len() && #[trigger] self@[i] is None {
                let i = choose|i: int| 0 <= i < self@.len() && #[trigger] self@[i] is None;
                assert(self.freed_ids@.contains(i as usize));
            }
        }
        !self.freed_ids.is_empty()
    }

    /// Stores `item` and returns its pointer: the last freed slot if there
    /// is one, else a new slot at the end.
    pub fn push(&mut self, item: T) -> (ptr: Ptr)
        requires
            old(self).wf(),
        ensures
            final(self).wf(),
            old(self).free_stack().len() > 0 ==> {
                &&& ptr == old(self).free_stack().last()
                &&& final(self)@ == old(self)@.update(ptr as int, Some(item))
                &&& final(self).free_stack() == old(self).free_stack().drop_last()
            },
            old(self).free_stack().len() == 0 ==> {
                &&& ptr == old(self)@.len()
                &&& final(self)@ == old(self)@.push(Some(item))
                &&& final(self).free_stack() == old(self).free_stack()
            },
            ptr == old(self).next_slot(0),
            final(self)@ == old(self).slots_after_push(item),
            forall|n: nat| #[trigger] final(self).next_slot(n) == old(self).next_slot(n + 1),
            ptr < old(self)@.len() ==> old(self)@[ptr as int] is None,
            ptr <= old(self)@.len(),
            ptr < final(self)@.len(),
            final(self)@[ptr as int] == Some(item),
            final(self)@.len() >= old(self)@.len(),
            forall|i: int| 0 <= i < old(self)@.len() && i != ptr ==> #[trigger] final(self)@[i] == old(self)@[i],
    {
        let ghost s = self.data@;
        let ghost f = self.freed_ids@;
        if let Some(ptr) = self.freed_ids.pop() {
            proof {
                assert(f[f.len() - 1] == ptr);
                lemma_present_update_len(s, ptr as int, Some(item));
            }
            self.data.set(ptr, Some(item));
            proof {
                assert forall|k: int| 0 <= k < self.freed_ids.len() implies #[trigger] self.freed_ids@[k]
                    < self.data.len() && self.data@[self.freed_ids@[k] as int] is None by {
                    assert(f[k] != f[f.len() - 1]);
                }
                assert forall|i: int|
                    0 <= i < self.data.len() && #[trigger] self.data@[i] is None implies self.freed_ids@.contains(
                    i as usize,
                ) by {
                    assert(f.contains(i as usize));
                    let k = choose|k: int| 0 <= k < f.len() && f[k] == i as usize;
                    assert(self.freed_ids@[k] == i as usize);
                }
            }
            ptr
        } else {
            self.data.push(Some(item));
            proof {
                assert(self.data@.drop_last() == s);
            }
            let ptr = self.data.len() - 1;
            ptr
        }
    }

    /// Empties the slot `ptr`, and puts it on the free stack.
    pub fn delete(&mut self, ptr: Ptr)
        requires
            old(self).wf(),
            ptr < old(self)@.len(),
            old(self)@[ptr as int] is Some,
        ensures
            final(self).wf(),
            final(self)@ == old(self)@.update(ptr as int, None),
            final(self).free_stack() == old(self).free_stack().push(ptr),
    {
        let ghost s = self.data@;
        let ghost f = self.freed_ids@;
        proof {
            lemma_present_update_len(s, ptr as int, None);
            if f.contains(ptr) {
                let k = choose|k: int| 0 <= k < f.len() && f[k] == ptr;
                assert(s[f[k] as int] is None);
            }
        }
        self.freed_ids.push(ptr);
        self.data.set(ptr, None);
        proof {
            assert forall|i: int|
                0 <= i < self.data.len() && #[trigger] self.data@[i] is None implies self.freed_ids@.contains(
                i as usize,
            ) by {
                if i != ptr {
                    assert(f.contains(i as usize));
                    let k = choose|k: int| 0 <= k < f.len() && f[k] == i as usize;
                    assert(self.freed_ids@[k] == i as usize);
                } else {
                    assert(self.freed_ids@[f.len() as int] == ptr);
                }
            }
        }
    }

    /// Replaces the item at `ptr`.
    pub fn set(&mut self, ptr: Ptr, item: T)
        requires
            old(self).wf(),
            ptr < old(self)@.len(),
            old(self)@[ptr as int] is Some,
        ensures
            final(self).wf(),
            final(self)@ == old(self)@.update(ptr as int, Some(item)),
            final(self).free_stack() == old(self).free_stack(),
    {
        proof {
            lemma_present_update_len(self.data@, ptr as int, Some(item));
        }
        self.data.set(ptr, Some(item));
    }

    /// The item at `ptr`, or `None` where it is freed or out of range.
    pub fn get(&self, ptr: Ptr) -> (res: Option<&T>)
        ensures
            ptr < self@.len() ==> match self@[ptr as int] {
                Some(v) => res == Some(&v),
                None => res.is_none(),
            },
            ptr >= self@.len() ==> res.is_none(),
    {
        if ptr < self.data.len() {
            self.data[ptr].as_ref()
        } else {
            None
        }
    }

    /// Mutable access to the item at `ptr`, or `None` where it is freed or
    /// out of range.
    pub fn get_mut(&mut self, ptr: Ptr) -> (res: Option<&mut T>)
        requires
            old(self).wf(),
        ensures
            final(self).wf(),
            final(self).free_stack() == old(self).free_stack(),
            ptr < old(self)@.len() && old(self)@[ptr as int] is Some ==> {
                &&& res is Some
                &&& *res.unwrap() == old(self)@[ptr as int].unwrap()
                &&& final(self)@ == old(self)@.update(ptr as int, Some(*final(res.unwrap())))
            },
            !(ptr < old(self)@.len() && old(self)@[ptr as int] is Some) ==> {
                &&& res is None
                &&& final(self)@ == old(self)@
            },
    {
        if ptr < self.data.len() {
            let ghost s = self.data@;
            proof {
                assert forall|v: Option<T>| #[trigger] present(s.update(ptr as int, v)).len() + (if s[ptr as int] is Some { 1int } else { 0 })
                    == present(s).len() + (if v is Some { 1int } else { 0 }) by {
                    lemma_present_update_len(s, ptr as int, v);
                }
            }
            self.data[ptr].as_mut()
        } else {
            None
        }
    }

    /// Mutable references to all items, in slot order. Writing through them
    /// changes the items and nothing else.
    pub fn iter_mut(&mut self) -> (items: Vec<&mut T>)
        requires
            old(self).wf(),
        ensures
            final(self).wf(),
            final(self).free_stack() == old(self).free_stack(),
            items.len() == present(old(self)@).len(),
            forall|k: int| 0 <= k < items.len() ==> *(#[trigger] items@[k]) == present(old(self)@)[k],
            final(self)@.len() == old(self)@.len(),
            forall|i: int|
                0 <= i < old(self)@.len() ==> (#[trigger] final(self)@[i] is Some) == (old(self)@[i] is Some),
            present(final(self)@).len() == present(old(self)@).len(),
            forall|k: int|
                0 <= k < items.len() ==> present(final(self)@)[k] == *final(#[trigger] items@[k]),
    {
        let mut items: Vec<&mut T> = Vec::new();
        proof {
            lemma_present_front(self.data@);
            assert forall|s: Seq<Option<T>>| #[trigger] present_front(s) == present(s) by {
                lemma_present_front(s);
            }
        }
        collect_mut(self.data.as_mut_slice(), &mut items);
        items
    }

    /// All items, in slot order.
    pub fn iter(&self) -> (items: Vec<&T>)
        ensures
            items.len() == present(self@).len(),
            forall|k: int| 0 <= k < items.len() ==> *(#[trigger] items@[k]) == present(self@)[k],
    {
        let mut items: Vec<&T> = Vec::new();
        let n = self.data.len();
        let mut i: usize = 0;
        while i < n
            invariant
                i <= n,
                n == self@.len(),
                items.len() == present(self@.take(i as int)).len(),
                forall|k: int|
                    0 <= k < items.len() ==> *(#[trigger] items@[k]) == present(self@.take(i as int))[k],
            decreases n - i,
        {
            proof {
                lemma_present_take(self@, i as int);
                assert(self.data@ == self@);
            }
            match &self.data[i] {
                Some(item) => items.push(item),
                None => {},
            }
            i = i + 1;
        }
        proof {
            assert(self@.take(n as int) == self@);
        }
        items
    }

    /// All items with their pointers, in slot order.
    pub fn iter_enum(&self) -> (entries: Vec<(usize, &T)>)
        ensures
            entries.len() == present(self@).len(),
            forall|k: int|
                0 <= k < entries.len() ==> (#[trigger] entries@[k]).0 == present_ids(self@)[k] && *entries@[k].1
                    == present(self@)[k],
    {
        let mut entries: Vec<(usize, &T)> = Vec::new();
        let n = self.data.len();
        let mut i: usize = 0;
        proof {
            lemma_present_ids_len(self@);
        }
        while i < n
            invariant
                i <= n,
                n == self@.len(),
                entries.len() == present(self@.take(i as int)).len(),
                present_ids(self@.take(i as int)).len() == present(self@.take(i as int)).len(),
                forall|k: int|
                    0 <= k < entries.len() ==> (#[trigger] entries@[k]).0 == present_ids(
                        self@.take(i as int),
                    )[k] && *entries@[k].1 == present(self@.take(i as int))[k],
            decreases n - i,
        {
            proof {
                lemma_present_take(self@, i as int);
                assert(self.data@ == self@);
            }
            match &self.data[i] {
                Some(item) => entries.push((i, item)),
                None => {},
            }
            i = i + 1;
        }
        proof {
            assert(self@.take(n as int) == self@);
        }
        entries
    }

    /// All items with their pointers, in slot order.
    pub fn iter_enum_mut(&mut self) -> (entries: Vec<(usize, &T)>)
        ensures
            final(self)@ == old(self)@,
            entries.len() == present(old(self)@).len(),
            forall|k: int|
                0 <= k < entries.len() ==> (#[trigger] entries@[k]).0 == present_ids(old(self)@)[k]
                    && *entries@[k].1 == present(old(self)@)[k],
    {
        self.iter_enum()
    }

    /// All items, in slot order.
    pub fn all(&self) -> (items: Vec<&T>)
        ensures
            items.len() == present(self@).len(),
            forall|k: int| 0 <= k < items.len() ==> *(#[trigger] items@[k]) == present(self@)[k],
    {
        self.iter()
    }

    /// The pointers of all items, in slot order.
    pub fn all_ids(&self) -> (ids: Vec<Ptr>)
        ensures
            ids@ == present_ids(self@),
    {
        let entries = self.iter_enum();
        let mut ids: Vec<Ptr> = Vec::new();
        let mut k: usize = 0;
        proof {
            assert(self@.len() == self.data.len());
            lemma_present_ids_len(self@);
        }
        while k < entries.len()
            invariant
                k <= entries.len(),
                entries.len() == present_ids(self@).len(),
                forall|j: int| 0 <= j < entries.len() ==> (#[trigger] entries@[j]).0 == present_ids(self@)[j],
                ids@ == present_ids(self@).take(k as int),
            decreases entries.len() - k,
        {
            ids.push(entries[k].0);
            proof {
                assert(present_ids(self@).take(k + 1) == present_ids(self@).take(k as int).push(
                    present_ids(self@)[k as int],
                ));
            }
            k = k + 1;
        }
        proof {
            assert(present_ids(self@).take(k as int) == present_ids(self@));
        }
        ids
    }
}

impl<T> Default for Pool<T> {
    fn default() -> (pool: Self)
        ensures
            pool.wf(),
            pool@ == Seq::<Option<T>>::empty(),
            pool.free_stack() == Seq::<usize>::empty(),
    {
        Pool::new()
    }
}

} // verus!

verus! {

/// The items before a filled slot count its position among the items.
pub proof fn lemma_present_rank<T>(s: Seq<Option<T>>, p: int)
    requires
        0 <= p < s.len(),
        s[p] is Some,
    ensures
        present(s.take(p)).len() < present(s).len(),
        present(s)[present(s.take(p)).len() as int] == s[p]->0,
    decreases s.len(),
{
    let d = s.drop_last();
    if p == s.len() - 1 {
        assert(s.take(p) == d);
    } else {
        assert(s.take(p) == d.take(p));
        lemma_present_rank(d, p);
    }
}

/// The slots of a pool hold its items, or are on its free stack.
pub proof fn law_len_is_slots_minus_freed<T>(pool: Pool<T>)
    requires
        pool.wf(),
    ensures
        present(pool@).len() == pool@.len() - pool.free_stack().len(),
        pool@.len() <= usize::MAX,
        forall|k: int|
            0 <= k < pool.free_stack().len() ==> #[trigger] pool.free_stack()[k] < pool@.len()
                && pool@[pool.free_stack()[k] as int] is None,
{
}

/// After `push` returns a pointer, `get` of it gives the item pushed.
pub proof fn law_get_after_push<T>(before: Pool<T>, after: Pool<T>, item: T, ptr: Ptr)
    requires
        before.wf(),
        before.free_stack().len() > 0 ==> ptr == before.free_stack().last() && after@ == before@.update(
            ptr as int,
            Some(item),
        ),
        before.free_stack().len() == 0 ==> ptr == before@.len() && after@ == before@.push(Some(item)),
    ensures
        ptr < after@.len(),
        after@[ptr as int] == Some(item),
{
    if before.free_stack().len() > 0 {
        assert(before.free_stack()[before.free_stack().len() - 1] < before@.len());
    }
}

/// A deleted slot is the first one that `push` takes again.
pub proof fn law_push_reuses_deleted<T>(before: Pool<T>, after: Pool<T>, ptr: Ptr)
    requires
        after.free_stack() == before.free_stack().push(ptr),
    ensures
        after.free_stack().len() > 0,
        after.free_stack().last() == ptr,
{
}

/// `refactor` keeps the items and their order, and leaves no empty slot.
pub proof fn law_refactor_keeps_items<T>(slots: Seq<Option<T>>)
    ensures
        present(compacted(slots)) == present(slots),
        compacted(slots).len() == present(slots).len(),
        forall|i: int| 0 <= i < compacted(slots).len() ==> #[trigger] compacted(slots)[i] is Some,
{
    lemma_present_compacted(slots);
}

/// The mapping of `get_refactor_mapping` tells where `refactor` puts each
/// item: the slot that the mapping gives for an old pointer holds the item
/// that the old pointer held.
pub proof fn law_refactor_mapping_agrees<T>(slots: Seq<Option<T>>, p: usize)
    requires
        p < slots.len(),
        slots[p as int] is Some,
        slots.len() <= usize::MAX,
    ensures
        refactor_map(slots).contains_key(p),
        refactor_map(slots)[p] < compacted(slots).len(),
        compacted(slots)[refactor_map(slots)[p] as int] == slots[p as int],
{
    lemma_present_rank(slots, p as int);
    lemma_present_ids_len(slots);
    lemma_present_compacted(slots);
}

} // verus!

verus! {

/// The pointers of the items of `s` are exactly its filled slots, in
/// ascending order, each once, and each holds the item at the same position.
pub proof fn lemma_present_ids_props<T>(s: Seq<Option<T>>)
    requires
        s.len() <= usize::MAX,
    ensures
        present_ids(s).len() == present(s).len(),
        forall|k: int|
            0 <= k < present_ids(s).len() ==> #[trigger] present_ids(s)[k] < s.len() && s[present_ids(
                s,
            )[k] as int] == Some(present(s)[k]),
        forall|k: int, l: int|
            0 <= k < l < present_ids(s).len() ==> #[trigger] present_ids(s)[k] < #[trigger] present_ids(s)[l],
        forall|i: int| 0 <= i < s.len() && #[trigger] s[i] is Some ==> present_ids(s).contains(i as usize),
    decreases s.len(),
{
    lemma_present_ids_len(s);
    if s.len() > 0 {
        let t = s.drop_last();
        lemma_present_ids_props(t);
        assert forall|k: int, l: int|
            0 <= k < l < present_ids(s).len() implies #[trigger] present_ids(s)[k] < #[trigger] present_ids(s)[l] by {
            if l < present_ids(t).len() {
                assert(present_ids(s)[k] == present_ids(t)[k]);
                assert(present_ids(s)[l] == present_ids(t)[l]);
            } else {
                assert(present_ids(s)[k] == present_ids(t)[k]);
                assert(present_ids(t)[k] < t.len());
            }
        }
        assert forall|i: int| 0 <= i < s.len() && #[trigger] s[i] is Some implies present_ids(s).contains(i as usize) by {
            if i < s.len() - 1 {
                assert(t[i] is Some);
                let k = choose|k: int| 0 <= k < present_ids(t).len() && present_ids(t)[k] == i as usize;
                assert(present_ids(s)[k] == i as usize);
            } else {
                assert(present_ids(s)[present_ids(s).len() - 1] == i as usize);
            }
        }
    }
}

} // verus!
