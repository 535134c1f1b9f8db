//! A first-in-first-out queue with logical removal and lazy cleanup.
//!
//! The concurrent design links heap-allocated entries through atomic
//! owning pointers and returns shared owners of pushed and popped entries.
//! This model keeps every entry that was ever pushed in an arena held by the
//! queue, and a handle to an entry is the entry's arena index: exactly as a
//! shared owner, a handle stays usable after the entry has left the queue.
//! The physical chain of entries reachable from `oldest` is mirrored by a
//! ghost sequence of arena indices, over which all contracts are stated.

use vstd::prelude::*;

verus! {

/// One queue entry: an instance of `T` and a link to the next entry.
///
/// `removed` models the `First` tag bit that the concurrent design keeps on the
/// entry's own `next` pointer to mark logical removal.
pub struct Entry<T> {
    instance: Option<T>,
    next: Option<usize>,
    removed: bool,
}

impl<T> Entry<T> {
    /// The stored instance. Entries created by the queue always hold one.
    pub closed spec fn value_opt(&self) -> Option<T> {
        self.instance
    }

    /// True iff the entry is marked as logically removed.
    pub closed spec fn spec_removed(&self) -> bool {
        self.removed
    }

    /// The arena index of the successor entry, if any.
    pub closed spec fn spec_next(&self) -> Option<usize> {
        self.next
    }

    /// Creates a fresh, unlinked, not-removed entry.
    pub(crate) fn new(val: T) -> (r: Entry<T>)
        ensures
            r.value_opt() == Some(val),
            r.spec_next() is None,
            !r.spec_removed(),
    {
        Entry { instance: Some(val), next: None, removed: false }
    }

    /// Borrows the stored instance.
    pub fn get(&self) -> (r: &T)
        requires
            self.value_opt() is Some,
        ensures
            self.value_opt() == Some(*r),
    {
        match &self.instance {
            Some(v) => v,
            None => unreached(),
        }
    }

    /// Marks the entry as logically removed. Returns `true` iff this call
    /// performed the transition, `false` if the entry was already removed.
    pub fn remove(&mut self) -> (r: bool)
        ensures
            r == !old(self).spec_removed(),
            final(self).spec_removed(),
            final(self).value_opt() == old(self).value_opt(),
            final(self).spec_next() == old(self).spec_next(),
    {
        if self.removed {
            false
        } else {
            self.removed = true;
            true
        }
    }

    /// Returns `true` iff the entry has been marked as logically removed.
    pub fn is_removed(&self) -> (r: bool)
        ensures
            r == self.spec_removed(),
    {
        self.removed
    }
}

/// The values of a physical chain that are not marked as removed, oldest
/// first.
pub open spec fn live_of<T>(s: Seq<(T, bool)>) -> Seq<T>
    decreases s.len(),
{
    if s.len() == 0 {
        Seq::empty()
    } else if s[0].1 {
        live_of(s.drop_first())
    } else {
        seq![s[0].0] + live_of(s.drop_first())
    }
}

/// Position of the first not-removed entry of `s`; `s.len()` if every entry
/// is removed.
pub open spec fn first_live<T>(s: Seq<(T, bool)>) -> int
    decreases s.len(),
{
    if s.len() == 0 {
        0
    } else if !s[0].1 {
        0
    } else {
        1 + first_live(s.drop_first())
    }
}

/// Appending an entry appends its value to the live sequence, or nothing if
/// the entry is marked removed.
pub proof fn lemma_live_push<T>(s: Seq<(T, bool)>, p: (T, bool))
    ensures
        live_of(s.push(p)) == if p.1 {
            live_of(s)
        } else {
            live_of(s).push(p.0)
        },
    decreases s.len(),
{
    if s.len() == 0 {
        assert(s.push(p).drop_first() =~= s);
        if !p.1 {
            assert(seq![p.0] + live_of(s) =~= live_of(s).push(p.0));
        }
    } else {
        assert(s.push(p).drop_first() =~= s.drop_first().push(p));
        lemma_live_push(s.drop_first(), p);
        if !s[0].1 {
            if p.1 {
            } else {
                assert(seq![s[0].0] + live_of(s.drop_first()).push(p.0) =~= (seq![s[0].0]
                    + live_of(s.drop_first())).push(p.0));
            }
        }
    }
}

/// Dropping a removed prefix leaves the live sequence unchanged.
pub proof fn lemma_live_skip_removed<T>(s: Seq<(T, bool)>, k: int)
    requires
        0 <= k <= s.len(),
        forall|j: int| 0 <= j < k ==> (#[trigger] s[j]).1,
    ensures
        live_of(s) == live_of(s.skip(k)),
    decreases k,
{
    if k > 0 {
        assert(s[0].1);
        lemma_live_skip_removed(s.drop_first(), k - 1);
        assert(s.drop_first().skip(k - 1) =~= s.skip(k));
    } else {
        assert(s.skip(0) =~= s);
    }
}

/// The first live entry is at `first_live`, and everything before it is
/// removed.
pub proof fn lemma_first_live<T>(s: Seq<(T, bool)>)
    ensures
        0 <= first_live(s) <= s.len(),
        forall|j: int| 0 <= j < first_live(s) ==> (#[trigger] s[j]).1,
        first_live(s) < s.len() ==> !s[first_live(s)].1,
        (first_live(s) == s.len()) == (live_of(s).len() == 0),
        first_live(s) < s.len() ==> live_of(s).len() > 0 && live_of(s)[0] == s[first_live(s)].0,
    decreases s.len(),
{
    if s.len() > 0 {
        lemma_first_live(s.drop_first());
        if s[0].1 {
            let fl = first_live(s);
            assert(fl == 1 + first_live(s.drop_first()));
            assert forall|j: int| 0 <= j < fl implies (#[trigger] s[j]).1 by {
                if j >= 1 {
                    assert(s[j] == s.drop_first()[j - 1]);
                }
            }
            if fl < s.len() {
                assert(s[fl] == s.drop_first()[fl - 1]);
            }
        }
    }
}

/// Marking the head of a chain as removed drops the head of the live
/// sequence, when the head was live.
pub proof fn lemma_live_mark_head<T>(s: Seq<(T, bool)>)
    requires
        s.len() > 0,
        !s[0].1,
    ensures
        live_of(s.update(0, (s[0].0, true))) == live_of(s).drop_first(),
{
    let s2 = s.update(0, (s[0].0, true));
    assert(s2.drop_first() =~= s.drop_first());
    assert(live_of(s) == seq![s[0].0] + live_of(s.drop_first()));
    assert((seq![s[0].0] + live_of(s.drop_first())).drop_first() =~= live_of(s.drop_first()));
}

/// Everything a pop needs to know at the moment it reaches the first
/// not-removed entry of the chain, at position `c`: where the live head
/// is, and how marking and then unlinking it advances the chain.
pub proof fn lemma_pop_head<T>(s0: Seq<(T, bool)>, c: int)
    requires
        0 <= c < s0.len(),
        !s0[c].1,
        forall|j: int| 0 <= j < c ==> (#[trigger] s0[j]).1,
    ensures
        c == first_live(s0),
        live_of(s0).len() > 0,
        live_of(s0)[0] == s0[c].0,
        live_of(s0) == live_of(s0.skip(c)),
        live_of(s0.skip(c).update(0, (s0[c].0, true))) == live_of(s0).drop_first(),
        s0.skip(c).update(0, (s0[c].0, true)).drop_first() == s0.skip(c + 1),
        live_of(s0.skip(c + 1)) == live_of(s0).drop_first(),
{
    lemma_first_live(s0);
    lemma_live_skip_removed(s0, c);
    assert(s0.skip(c)[0] == s0[c]);
    lemma_live_mark_head(s0.skip(c));
    let upd = s0.skip(c).update(0, (s0[c].0, true));
    assert(upd.drop_first() =~= s0.skip(c + 1));
    assert(live_of(upd) == live_of(upd.drop_first()));
}

/// True iff `a` is the argument a tail condition receives on a queue whose
/// physical chain is `s`: nothing when the chain is empty, otherwise the
/// chain's newest entry.
pub open spec fn tail_arg_matches<T>(s: Seq<(T, bool)>, a: Option<&Entry<T>>) -> bool {
    match a {
        None => s.len() == 0,
        Some(e) => s.len() > 0 && e.value_opt() == Some(s.last().0) && e.spec_removed()
            == s.last().1,
    }
}

/// True iff some live entry holding `v` is an argument on which `cond`
/// can return `b`.
pub open spec fn head_cond_holds<T, F: Fn(&Entry<T>) -> bool>(v: T, cond: F, b: bool) -> bool {
    exists|e: &Entry<T>|
        e.value_opt() == Some(v) && !e.spec_removed() && #[trigger] call_ensures(cond, (e,), b)
}

/// True iff some live entry holding `v` is an argument on which `reader`
/// can return `x`.
pub open spec fn head_read_holds<T, R, F: Fn(&Entry<T>) -> R>(v: T, reader: F, x: R) -> bool {
    exists|e: &Entry<T>|
        e.value_opt() == Some(v) && !e.spec_removed() && #[trigger] call_ensures(reader, (e,), x)
}

/// A lock-free first-in-first-out queue of entries with logical removal.
pub struct Queue<T> {
    /// Arena of every entry ever pushed; an entry handle is its index here.
    entries: Vec<Entry<T>>,
    /// Index of the oldest entry of the physical chain.
    oldest: Option<usize>,
    /// Index of the newest entry of the physical chain.
    newest: Option<usize>,
    /// The physical chain from `oldest`, as arena indices.
    chain: Ghost<Seq<usize>>,
}

impl<T> Queue<T> {
    /// Number of entries the arena holds; handles below this are valid.
    pub closed spec fn n_slots(&self) -> nat {
        self.entries@.len()
    }

    /// True iff `id` is a handle this queue has returned.
    pub open spec fn valid_id(&self, id: usize) -> bool {
        id < self.n_slots()
    }

    /// The entry behind handle `id`.
    pub closed spec fn entry_at(&self, id: usize) -> Entry<T> {
        self.entries@[id as int]
    }

    /// The instance stored behind handle `id`.
    pub open spec fn id_value(&self, id: usize) -> T {
        self.entry_at(id).value_opt().unwrap()
    }

    /// True iff the entry behind handle `id` is marked removed.
    pub open spec fn id_removed(&self, id: usize) -> bool {
        self.entry_at(id).spec_removed()
    }

    /// The physical chain from `oldest`: each entry's value and removal mark.
    pub closed spec fn phys(&self) -> Seq<(T, bool)> {
        Seq::new(
            self.chain@.len(),
            |k: int| (self.entries@[self.chain@[k] as int].instance.unwrap(), self.entries@[self.chain@[k] as int].removed),
        )
    }

    /// The values logically in the queue, oldest first.
    pub open spec fn live(&self) -> Seq<T> {
        live_of(self.phys())
    }

    /// Position of handle `id` in the physical chain, if it is linked.
    pub closed spec fn phys_pos(&self, id: usize) -> Option<int> {
        if exists|k: int| 0 <= k < self.chain@.len() && self.chain@[k] == id {
            Some(choose|k: int| 0 <= k < self.chain@.len() && self.chain@[k] == id)
        } else {
            None
        }
    }

    /// Well-formedness: the ghost chain mirrors the `next` links, `oldest`
    /// and `newest` are its two ends, indices grow along the chain (entries
    /// are appended to the arena in push order), and every entry holds an
    /// instance.
    pub closed spec fn wf(&self) -> bool {
        let es = self.entries@;
        let ch = self.chain@;
        &&& es.len() <= usize::MAX
        &&& forall|k: int| 0 <= k < ch.len() ==> 0 <= #[trigger] ch[k] < es.len()
        &&& forall|k: int| 0 < k < ch.len() ==> ch[k - 1] < #[trigger] ch[k]
        &&& self.oldest == (if ch.len() == 0 {
            None::<usize>
        } else {
            Some(ch[0])
        })
        &&& self.newest == (if ch.len() == 0 {
            None::<usize>
        } else {
            Some(ch[ch.len() - 1])
        })
        &&& forall|k: int|
            0 <= k < ch.len() - 1 ==> (#[trigger] es[ch[k] as int].next) == Some(ch[k + 1])
        &&& ch.len() > 0 ==> es[ch[ch.len() - 1] as int].next is None
        &&& forall|i: int| 0 <= i < es.len() ==> (#[trigger] es[i].instance) is Some
    }

    /// Creates an empty queue.
    pub fn new() -> (r: Queue<T>)
        ensures
            r.wf(),
            r.phys() == Seq::<(T, bool)>::empty(),
            r.n_slots() == 0,
    {
        let r = Queue { entries: Vec::new(), oldest: None, newest: None, chain: Ghost(Seq::empty()) };
        proof {
            assert(r.phys() =~= Seq::<(T, bool)>::empty());
        }
        r
    }

    /// Returns `true` iff no entry is physically linked in the queue.
    ///
    /// Entries that are marked removed but not yet cleaned up still count as
    /// present, exactly as in the concurrent design, which answers from
    /// the `newest` hint alone.
    pub fn is_empty(&self) -> (r: bool)
        requires
            self.wf(),
        ensures
            r == (self.phys().len() == 0),
    {
        self.newest.is_none()
    }

    /// Borrows the entry behind a handle.
    pub fn entry(&self, id: usize) -> (r: &Entry<T>)
        requires
            self.valid_id(id),
        ensures
            *r == self.entry_at(id),
    {
        &self.entries[id]
    }

    /// Unlinks the oldest entry iff it is marked removed, and returns the
    /// new oldest handle. The unlinked entry stays in the arena: the EBR of
    /// the concurrent design keeps it alive until the current epoch retires, and
    /// handles held by callers stay usable.
    #[verifier::spinoff_prover]
    #[verifier::rlimit(50)]
    fn cleanup_oldest(&mut self) -> (r: Option<usize>)
        requires
            old(self).wf(),
        ensures
            final(self).wf(),
            r == final(self).oldest,
            final(self).n_slots() == old(self).n_slots(),
            forall|j: usize|
                j < old(self).n_slots() ==> final(self).entry_at(j) == old(self).entry_at(j),
            ({
                let s = old(self).phys();
                if s.len() > 0 && s[0].1 {
                    final(self).phys() == s.drop_first() && final(self).live() == old(self).live()
                } else {
                    *final(self) == *old(self)
                }
            }),
    {
        match self.oldest {
            Some(h) => {
                proof {
                    assert(self.chain@[0] == h);
                }
                if self.entries[h].removed {
                    let next = self.entries[h].next;
                    self.oldest = next;
                    if next.is_none() {
                        self.newest = None;
                    }
                    proof {
                        self.chain@ = self.chain@.drop_first();
                        assert(final(self).phys() =~= old(self).phys().drop_first());
                    }
                    next
                } else {
                    Some(h)
                }
            },
            None => None,
        }
    }

    /// Follows the `next` links from `start` to the true tail of the chain.
    fn traverse(&self, start: Option<usize>) -> (r: Option<usize>)
        requires
            self.wf(),
            match start {
                Some(h) => exists|k: int| 0 <= k < self.chain@.len() && self.chain@[k] == h,
                None => true,
            },
        ensures
            match r {
                Some(t) => self.chain@.len() > 0 && t == self.chain@[self.chain@.len() - 1],
                None => start is None,
            },
    {
        match start {
            None => None,
            Some(h0) => {
                let mut h = h0;
                let ghost mut k: int = choose|k: int|
                    0 <= k < self.chain@.len() && self.chain@[k] == h0;
                loop
                    invariant
                        self.wf(),
                        0 <= k < self.chain@.len(),
                        h == self.chain@[k],
                    decreases self.chain@.len() - k,
                {
                    let next = self.entries[h].next;
                    match next {
                        Some(n) => {
                            proof {
                                assert(k < self.chain@.len() - 1);
                                k = k + 1;
                            }
                            h = n;
                        },
                        None => {
                            proof {
                                assert(k == self.chain@.len() - 1);
                            }
                            return Some(h);
                        },
                    }
                }
            },
        }
    }

    /// Appends `val` iff `cond` accepts the current true tail (`None` when
    /// the queue is physically empty). Returns the handle of the new entry,
    /// or `val` back when the condition rejected the tail.
    fn push_if_internal<F: Fn(Option<&Entry<T>>) -> bool>(&mut self, val: T, cond: F) -> (r:
        Result<usize, T>)
        requires
            old(self).wf(),
            forall|a: Option<&Entry<T>>| #[trigger] call_requires(cond, (a,)),
        ensures
            final(self).wf(),
            match r {
                Ok(id) => {
                    &&& final(self).n_slots() == old(self).n_slots() + 1
                    &&& id as int == old(self).n_slots()
                    &&& final(self).valid_id(id)
                    &&& final(self).id_value(id) == val
                    &&& !final(self).id_removed(id)
                    &&& forall|j: usize|
                        j < old(self).n_slots() ==> final(self).id_value(j) == old(
                            self,
                        ).id_value(j) && final(self).id_removed(j) == old(self).id_removed(j)
                    &&& final(self).phys() == old(self).phys().push((val, false))
                    &&& final(self).live() == old(self).live().push(val)
                    &&& exists|a: Option<&Entry<T>>|
                        tail_arg_matches(old(self).phys(), a) && #[trigger] call_ensures(
                            cond,
                            (a,),
                            true,
                        )
                },
                Err(v) => {
                    &&& v == val
                    &&& *final(self) == *old(self)
                    &&& exists|a: Option<&Entry<T>>|
                        tail_arg_matches(old(self).phys(), a) && #[trigger] call_ensures(
                            cond,
                            (a,),
                            false,
                        )
                },
            },
    {
        let mut newest_ptr = self.newest;
        if newest_ptr.is_none() {
            newest_ptr = self.oldest;
        }
        newest_ptr = self.traverse(newest_ptr);

        let accepted = match newest_ptr {
            Some(t) => {
                proof {
                    assert(self.chain@[self.chain@.len() - 1] == t);
                    assert(self.phys().last() == (
                        self.entries@[t as int].instance.unwrap(),
                        self.entries@[t as int].removed,
                    ));
                }
                let tail: &Entry<T> = &self.entries[t];
                cond(Some(tail))
            },
            None => cond(None),
        };
        if !accepted {
            return Err(val);
        }

        let id = self.entries.len();
        self.entries.push(Entry::new(val));
        let arena_len = self.entries.len();
        proof {
            assert(arena_len == id + 1);
            chain_sorted(old(self).chain@);
        }
        match newest_ptr {
            Some(t) => {
                proof {
                    assert(old(self).chain@[old(self).chain@.len() - 1] == t);
                }
                let tail_entry = &mut self.entries[t];
                tail_entry.next = Some(id);
            },
            None => {
                self.oldest = Some(id);
            },
        }
        self.newest = Some(id);
        proof {
            self.chain@ = self.chain@.push(id);
            let q0 = *old(self);
            let es0 = q0.entries@;
            let ch0 = q0.chain@;
            let esn = self.entries@;
            let chn = self.chain@;
            assert(esn.len() == es0.len() + 1 && esn.len() <= usize::MAX);
            assert(esn[id as int].instance == Some(val) && esn[id as int].next is None
                && !esn[id as int].removed);
            assert(forall|j: int|
                0 <= j < es0.len() ==> (#[trigger] esn[j]).instance == es0[j].instance
                    && esn[j].removed == es0[j].removed);
            assert forall|k: int| 0 <= k < chn.len() - 1 implies (#[trigger] esn[chn[k]
                as int].next) == Some(chn[k + 1]) by {
                if k < ch0.len() - 1 {
                    assert(chn[k] == ch0[k] && chn[k + 1] == ch0[k + 1]);
                    assert(ch0[k] < ch0[ch0.len() - 1]);
                    assert(esn[chn[k] as int].next == es0[ch0[k] as int].next);
                } else {
                    assert(k == ch0.len() - 1 && chn[k + 1] == id);
                }
            }
            assert(self.wf());
            assert forall|m: int| 0 <= m < chn.len() implies self.phys()[m] == q0.phys().push(
                (val, false),
            )[m] by {
                if m < ch0.len() {
                    assert(chn[m] == ch0[m]);
                    assert(ch0[m] < es0.len());
                    assert(esn[chn[m] as int].instance == es0[ch0[m] as int].instance);
                    assert(esn[chn[m] as int].removed == es0[ch0[m] as int].removed);
                }
            }
            assert(self.phys() =~= q0.phys().push((val, false)));
            lemma_live_push(q0.phys(), (val, false));
        }
        Ok(id)
    }

    /// Appends `val` iff `cond` accepts the current true tail. Returns the
    /// supplied value back when the condition rejects it.
    pub fn push_if<F: Fn(Option<&Entry<T>>) -> bool>(&mut self, val: T, cond: F) -> (r: Result<
        usize,
        T,
    >)
        requires
            old(self).wf(),
            forall|a: Option<&Entry<T>>| #[trigger] call_requires(cond, (a,)),
        ensures
            final(self).wf(),
            match r {
                Ok(id) => {
                    &&& final(self).n_slots() == old(self).n_slots() + 1
                    &&& id as int == old(self).n_slots()
                    &&& final(self).valid_id(id)
                    &&& final(self).id_value(id) == val
                    &&& !final(self).id_removed(id)
                    &&& forall|j: usize|
                        j < old(self).n_slots() ==> final(self).id_value(j) == old(
                            self,
                        ).id_value(j) && final(self).id_removed(j) == old(self).id_removed(j)
                    &&& final(self).phys() == old(self).phys().push((val, false))
                    &&& final(self).live() == old(self).live().push(val)
                    &&& exists|a: Option<&Entry<T>>|
                        tail_arg_matches(old(self).phys(), a) && #[trigger] call_ensures(
                            cond,
                            (a,),
                            true,
                        )
                },
                Err(v) => {
                    &&& v == val
                    &&& *final(self) == *old(self)
                    &&& exists|a: Option<&Entry<T>>|
                        tail_arg_matches(old(self).phys(), a) && #[trigger] call_ensures(
                            cond,
                            (a,),
                            false,
                        )
                },
            },
    {
        self.push_if_internal(val, cond)
    }

    /// Appends `val` unconditionally and returns the handle of its entry.
    pub fn push(&mut self, val: T) -> (id: usize)
        requires
            old(self).wf(),
        ensures
            final(self).wf(),
            final(self).n_slots() == old(self).n_slots() + 1,
            id as int == old(self).n_slots(),
            final(self).valid_id(id),
            final(self).id_value(id) == val,
            !final(self).id_removed(id),
            forall|j: usize|
                j < old(self).n_slots() ==> final(self).id_value(j) == old(self).id_value(j)
                    && final(self).id_removed(j) == old(self).id_removed(j),
            final(self).phys() == old(self).phys().push((val, false)),
            final(self).live() == old(self).live().push(val),
    {
        let always = |a: Option<&Entry<T>>| -> (b: bool)
            ensures
                b,
            { true };
        match self.push_if_internal(val, always) {
            Ok(id) => id,
            Err(v) => {
                proof {
                    let a = choose|a: Option<&Entry<T>>|
                        tail_arg_matches(old(self).phys(), a) && #[trigger] call_ensures(
                            always,
                            (a,),
                            false,
                        );
                    assert(call_ensures(always, (a,), false));
                    assert(false);
                }
                unreached()
            },
        }
    }

    /// Pops the oldest live entry iff `cond` accepts it.
    ///
    /// Entries whose removal mark is already set are unlinked on the way.
    /// Returns `Ok(None)` when no live entry is left, `Err` with the handle
    /// of the oldest live entry when `cond` rejects it, and `Ok(Some(_))`
    /// with its handle — now marked removed and unlinked — when it accepts.
    #[verifier::spinoff_prover]
    #[verifier::rlimit(100)]
    pub fn pop_if<F: Fn(&Entry<T>) -> bool>(&mut self, cond: F) -> (r: Result<
        Option<usize>,
        usize,
    >)
        requires
            old(self).wf(),
            forall|e: &Entry<T>| #[trigger] call_requires(cond, (e,)),
        ensures
            final(self).wf(),
            final(self).n_slots() == old(self).n_slots(),
            forall|j: usize|
                j < old(self).n_slots() ==> final(self).id_value(j) == old(self).id_value(j),
            ({
                let s = old(self).phys();
                let l = live_of(s);
                let fl = first_live(s);
                match r {
                    Ok(popped) => match popped {
                        None => {
                            &&& l.len() == 0
                            &&& final(self).phys().len() == 0
                            &&& forall|j: usize|
                                j < old(self).n_slots() ==> final(self).id_removed(j) == old(
                                    self,
                                ).id_removed(j)
                        },
                        Some(id) => {
                            &&& l.len() > 0
                            &&& final(self).valid_id(id)
                            &&& final(self).id_value(id) == l[0]
                            &&& !old(self).id_removed(id)
                            &&& final(self).id_removed(id)
                            &&& forall|j: usize|
                                j < old(self).n_slots() && j != id ==> final(self).id_removed(j)
                                    == old(self).id_removed(j)
                            &&& final(self).phys() == s.skip(fl + 1)
                            &&& final(self).live() == l.drop_first()
                            &&& head_cond_holds(l[0], cond, true)
                        },
                    },
                    Err(id) => {
                        &&& l.len() > 0
                        &&& final(self).valid_id(id)
                        &&& final(self).id_value(id) == l[0]
                        &&& !final(self).id_removed(id)
                        &&& forall|j: usize|
                            j < old(self).n_slots() ==> final(self).id_removed(j) == old(
                                self,
                            ).id_removed(j)
                        &&& final(self).phys() == s.skip(fl)
                        &&& final(self).live() == l
                        &&& head_cond_holds(l[0], cond, false)
                    },
                }
            }),
    {
        let ghost s0 = self.phys();
        let ghost mut c: int = 0;
        proof {
            assert(s0.skip(0) =~= s0);
        }
        loop
            invariant
                self.wf(),
                forall|e: &Entry<T>| #[trigger] call_requires(cond, (e,)),
                s0 == old(self).phys(),
                0 <= c <= s0.len(),
                forall|j: int| 0 <= j < c ==> (#[trigger] s0[j]).1,
                self.phys() == s0.skip(c),
                self.n_slots() == old(self).n_slots(),
                forall|j: usize|
                    j < old(self).n_slots() ==> self.entry_at(j) == old(self).entry_at(j),
            decreases s0.len() - c,
        {
            match self.oldest {
                None => {
                    proof {
                        assert(self.phys().len() == 0);
                        assert(c == s0.len());
                        lemma_first_live(s0);
                    }
                    return Ok(None);
                },
                Some(h) => {
                    proof {
                        assert(self.chain@[0] == h);
                        assert(self.phys()[0] == (
                            self.entries@[h as int].instance.unwrap(),
                            self.entries@[h as int].removed,
                        ));
                    }
                    if !self.entries[h].removed {
                        proof {
                            assert(self.phys().len() > 0);
                            assert(s0.skip(c)[0] == s0[c]);
                            assert(self.phys()[0] == s0.skip(c)[0]);
                            lemma_pop_head(s0, c);
                        }
                        let head: &Entry<T> = &self.entries[h];
                        if !cond(head) {
                            proof {
                                assert(head_cond_holds(live_of(s0)[0], cond, false));
                            }
                            return Err(h);
                        }
                        let ghost q_before = *self;
                        let head_entry = &mut self.entries[h];
                        let _marked = head_entry.remove();
                        proof {
                            mark_head(q_before, *self, h);
                            assert(self.phys() =~= s0.skip(c).update(0, (s0[c].0, true)));
                        }
                        let _ = self.cleanup_oldest();
                        proof {
                            assert(self.phys() =~= s0.skip(c + 1));
                        }
                        return Ok(Some(h));
                    } else {
                        let _ = self.cleanup_oldest();
                        proof {
                            assert(s0.skip(c).drop_first() =~= s0.skip(c + 1));
                            assert(s0[c].1);
                            c = c + 1;
                        }
                    }
                },
            }
        }
    }

    /// Pops the oldest live entry. Returns `None` when the queue holds no
    /// live entry.
    pub fn pop(&mut self) -> (r: Option<usize>)
        requires
            old(self).wf(),
        ensures
            final(self).wf(),
            final(self).n_slots() == old(self).n_slots(),
            forall|j: usize|
                j < old(self).n_slots() ==> final(self).id_value(j) == old(self).id_value(j),
            ({
                let s = old(self).phys();
                let l = live_of(s);
                match r {
                    None => {
                        &&& l.len() == 0
                        &&& final(self).phys().len() == 0
                    },
                    Some(id) => {
                        &&& l.len() > 0
                        &&& final(self).valid_id(id)
                        &&& final(self).id_value(id) == l[0]
                        &&& !old(self).id_removed(id)
                        &&& final(self).id_removed(id)
                        &&& forall|j: usize|
                            j < old(self).n_slots() && j != id ==> final(self).id_removed(j)
                                == old(self).id_removed(j)
                        &&& final(self).phys() == s.skip(first_live(s) + 1)
                        &&& final(self).live() == l.drop_first()
                    },
                }
            }),
    {
        let always = |e: &Entry<T>| -> (b: bool)
            ensures
                b,
            { true };
        match self.pop_if(always) {
            Ok(popped) => popped,
            Err(id) => {
                proof {
                    let e = choose|e: &Entry<T>|
                        e.value_opt() == Some(live_of(old(self).phys())[0]) && !e.spec_removed()
                            && #[trigger] call_ensures(always, (e,), false);
                    assert(call_ensures(always, (e,), false));
                    assert(false);
                }
                unreached()
            },
        }
    }

    /// Applies `reader` to the oldest live entry without removing it, and
    /// returns the result; `None` when no live entry is left.
    ///
    /// The concurrent design unlinks removed heads on the way; this model
    /// leaves the unlinking to the mutating operations and reads past the
    /// removed prefix, which observes the same value.
    #[verifier::spinoff_prover]
    pub fn peek<R, F: Fn(&Entry<T>) -> R>(&self, reader: F) -> (r: Option<R>)
        requires
            self.wf(),
            forall|e: &Entry<T>| #[trigger] call_requires(reader, (e,)),
        ensures
            r is None ==> self.live().len() == 0,
            r is Some ==> self.live().len() > 0 && head_read_holds(
                self.live()[0],
                reader,
                r.unwrap(),
            ),
    {
        let ghost s0 = self.phys();
        let mut cur = self.oldest;
        let ghost mut c: int = 0;
        proof {
            assert(s0.skip(0) =~= s0);
        }
        loop
            invariant
                self.wf(),
                forall|e: &Entry<T>| #[trigger] call_requires(reader, (e,)),
                s0 == self.phys(),
                0 <= c <= s0.len(),
                forall|j: int| 0 <= j < c ==> (#[trigger] s0[j]).1,
                cur == (if c < s0.len() {
                    Some(self.chain@[c])
                } else {
                    None::<usize>
                }),
            decreases s0.len() - c,
        {
            proof {
                lemma_first_live(s0);
                lemma_live_skip_removed(s0, c);
            }
            match cur {
                None => {
                    proof {
                        assert(c == s0.len());
                    }
                    return None;
                },
                Some(h) => {
                    proof {
                        assert(self.chain@[c] == h);
                        assert(s0[c] == (
                            self.entries@[h as int].instance.unwrap(),
                            self.entries@[h as int].removed,
                        ));
                    }
                    if !self.entries[h].removed {
                        proof {
                            assert(!s0[c].1);
                            assert(c == first_live(s0));
                            assert(live_of(s0)[0] == s0[c].0);
                        }
                        let head: &Entry<T> = &self.entries[h];
                        let x = reader(head);
                        proof {
                            assert(self.live().len() > 0);
                            assert(head.value_opt() == Some(self.live()[0]));
                            assert(!head.spec_removed());
                            assert(call_ensures(reader, (head,), x));
                            assert(head_read_holds(self.live()[0], reader, x));
                        }
                        return Some(x);
                    } else {
                        cur = self.entries[h].next;
                        proof {
                            c = c + 1;
                            assert(c < s0.len() ==> self.entries@[h as int].next == Some(
                                self.chain@[c],
                            ));
                        }
                    }
                },
            }
        }
    }

    /// The handle of the oldest physically linked entry, if any.
    pub closed spec fn oldest_id(&self) -> Option<usize> {
        self.oldest
    }

    /// The handle the newest-entry hint holds, if any.
    pub closed spec fn newest_id(&self) -> Option<usize> {
        self.newest
    }

    /// True iff the two queues have the same chain and end pointers; only
    /// the arena contents may differ.
    pub closed spec fn same_links(&self, other: &Queue<T>) -> bool {
        &&& self.chain@ == other.chain@
        &&& self.oldest == other.oldest
        &&& self.newest == other.newest
    }

    /// Mutably borrows the entry behind a handle, for [`Entry::remove`].
    ///
    /// [`lemma_shape_after_entry_swap`] recovers well-formedness and the new
    /// chain view once the caller is done with the borrow.
    pub fn entry_mut(&mut self, id: usize) -> (r: &mut Entry<T>)
        requires
            old(self).valid_id(id),
        ensures
            *r == old(self).entry_at(id),
            final(self).n_slots() == old(self).n_slots(),
            final(self).entry_at(id) == *final(r),
            forall|j: usize|
                j < old(self).n_slots() && j != id ==> final(self).entry_at(j) == old(
                    self,
                ).entry_at(j),
            final(self).same_links(old(self)),
    {
        &mut self.entries[id]
    }
}

impl<T> Default for Queue<T> {
    /// Same as [`Queue::new`]: an empty queue.
    fn default() -> (r: Self)
        ensures
            r.wf(),
            r.phys() == Seq::<(T, bool)>::empty(),
            r.n_slots() == 0,
    {
        Queue::new()
    }
}


/// Law of the queue's end pointers: the queue observes an oldest entry
/// exactly when it observes a newest one — after a pop drains the queue,
/// the cleanup that unlinked the last entry also reset the newest hint —
/// and both are absent exactly when the physical chain is empty.
pub proof fn lemma_ends_agree<T>(q: &Queue<T>)
    requires
        q.wf(),
    ensures
        (q.oldest_id() is None) == (q.newest_id() is None),
        (q.oldest_id() is None) == (q.phys().len() == 0),
{
}

/// Replacing one arena entry while keeping its instance and its link — the
/// only mutation [`Entry`] offers through [`Queue::entry_mut`] is toggling
/// the removal mark — keeps the queue well-formed, and the chain observes
/// the new mark at that entry's position.
pub proof fn lemma_shape_after_entry_swap<T>(q0: Queue<T>, q1: Queue<T>, id: usize)
    requires
        q0.wf(),
        q0.valid_id(id),
        q1.n_slots() == q0.n_slots(),
        q1.same_links(&q0),
        forall|j: usize|
            j < q0.n_slots() && j != id ==> #[trigger] q1.entry_at(j) == q0.entry_at(j),
        q1.entry_at(id).value_opt() == q0.entry_at(id).value_opt(),
        q1.entry_at(id).spec_next() == q0.entry_at(id).spec_next(),
    ensures
        q1.wf(),
        q1.phys() == (match q0.phys_pos(id) {
            Some(k) => q0.phys().update(k, (q0.id_value(id), q1.id_removed(id))),
            None => q0.phys(),
        }),
        q0.phys_pos(id) matches Some(k) ==> 0 <= k < q0.phys().len() && q0.phys()[k] == (
        q0.id_value(id),
        q0.id_removed(id),
        ),
{
    swap_pointwise(q0, q1, id);
    wf_transfer(q0, q1);
    phys_transfer(q0, q1, id);
}

/// Well-formedness only depends on the links, the instances and the chain.
proof fn wf_transfer<T>(q0: Queue<T>, q1: Queue<T>)
    requires
        q0.wf(),
        q1.n_slots() == q0.n_slots(),
        q1.same_links(&q0),
        forall|j: int|
            0 <= j < q0.entries@.len() ==> (#[trigger] q1.entries@[j]).instance
                == q0.entries@[j].instance && q1.entries@[j].next == q0.entries@[j].next,
    ensures
        q1.wf(),
{
    let es0 = q0.entries@;
    let es1 = q1.entries@;
    let ch = q0.chain@;
    assert forall|k: int| 0 <= k < ch.len() - 1 implies (#[trigger] es1[ch[k] as int].next)
        == Some(ch[k + 1]) by {
        assert(0 <= ch[k] < es0.len());
        assert(es1[ch[k] as int].next == es0[ch[k] as int].next);
    }
    if ch.len() > 0 {
        assert(es1[ch[ch.len() - 1] as int].next == es0[ch[ch.len() - 1] as int].next);
    }
    assert forall|i: int| 0 <= i < es1.len() implies (#[trigger] es1[i].instance) is Some by {
        assert(es1[i].instance == es0[i].instance);
    }
}

/// The chain view after one entry's removal mark may have changed.
proof fn phys_transfer<T>(q0: Queue<T>, q1: Queue<T>, id: usize)
    requires
        q0.wf(),
        q0.valid_id(id),
        q1.n_slots() == q0.n_slots(),
        q1.same_links(&q0),
        forall|j: int|
            0 <= j < q0.entries@.len() ==> (#[trigger] q1.entries@[j]).instance
                == q0.entries@[j].instance,
        forall|j: int|
            0 <= j < q0.entries@.len() && j != id ==> (#[trigger] q1.entries@[j]).removed
                == q0.entries@[j].removed,
    ensures
        q1.phys() == (match q0.phys_pos(id) {
            Some(k) => q0.phys().update(k, (q0.id_value(id), q1.id_removed(id))),
            None => q0.phys(),
        }),
        q0.phys_pos(id) matches Some(k) ==> 0 <= k < q0.phys().len() && q0.phys()[k] == (
        q0.id_value(id),
        q0.id_removed(id),
        ),
{
    let es0 = q0.entries@;
    let es1 = q1.entries@;
    let ch = q0.chain@;
    chain_sorted(ch);
    let mark = q1.id_removed(id);
    match q0.phys_pos(id) {
        Some(k) => {
            assert(0 <= k < ch.len() && ch[k] == id);
            let target = q0.phys().update(k, (q0.id_value(id), mark));
            assert forall|m: int| 0 <= m < ch.len() implies q1.phys()[m] == target[m] by {
                assert(es1[ch[m] as int].instance == es0[ch[m] as int].instance);
                if m != k {
                    assert(ch[m] != id);
                    assert(es1[ch[m] as int].removed == es0[ch[m] as int].removed);
                }
            }
            assert(q1.phys() =~= target);
        },
        None => {
            assert(forall|m: int| 0 <= m < ch.len() ==> #[trigger] ch[m] != id);
            assert forall|m: int| 0 <= m < ch.len() implies q1.phys()[m] == q0.phys()[m] by {
                assert(es1[ch[m] as int].instance == es0[ch[m] as int].instance);
                assert(es1[ch[m] as int].removed == es0[ch[m] as int].removed);
            }
            assert(q1.phys() =~= q0.phys());
        },
    }
}

/// Pointwise arena facts behind [`lemma_shape_after_entry_swap`]: every
/// entry keeps its instance and link, and every entry but `id` keeps its
/// removal mark.
proof fn swap_pointwise<T>(q0: Queue<T>, q1: Queue<T>, id: usize)
    requires
        q0.valid_id(id),
        q0.entries@.len() <= usize::MAX,
        q1.n_slots() == q0.n_slots(),
        forall|j: usize|
            j < q0.n_slots() && j != id ==> #[trigger] q1.entry_at(j) == q0.entry_at(j),
        q1.entry_at(id).value_opt() == q0.entry_at(id).value_opt(),
        q1.entry_at(id).spec_next() == q0.entry_at(id).spec_next(),
    ensures
        forall|j: int|
            0 <= j < q0.entries@.len() ==> (#[trigger] q1.entries@[j]).instance
                == q0.entries@[j].instance && q1.entries@[j].next == q0.entries@[j].next,
        forall|j: int|
            0 <= j < q0.entries@.len() && j != id ==> (#[trigger] q1.entries@[j]).removed
                == q0.entries@[j].removed,
{
    assert forall|j: int|
        0 <= j < q0.entries@.len() implies (#[trigger] q1.entries@[j]).instance
        == q0.entries@[j].instance && q1.entries@[j].next == q0.entries@[j].next && (j != id
        ==> q1.entries@[j].removed == q0.entries@[j].removed) by {
        if j == id {
            assert(q1.entry_at(id).value_opt() == q0.entry_at(id).value_opt());
            assert(q1.entry_at(id).spec_next() == q0.entry_at(id).spec_next());
        } else {
            let ju = j as usize;
            assert(ju < q0.n_slots() && ju != id);
            assert(q1.entry_at(ju) == q0.entry_at(ju));
            assert(q1.entries@[j] == q0.entries@[j]);
        }
    }
}

/// A chain whose neighbours grow is sorted overall.
proof fn chain_sorted(ch: Seq<usize>)
    requires
        forall|k: int| 0 < k < ch.len() ==> ch[k - 1] < #[trigger] ch[k],
    ensures
        forall|m: int, m2: int| 0 <= m < m2 < ch.len() ==> #[trigger] ch[m] < #[trigger] ch[m2],
{
    assert forall|m: int, m2: int| 0 <= m < m2 < ch.len() implies #[trigger] ch[m]
        < #[trigger] ch[m2] by {
        chain_sorted_step(ch, m, m2);
    }
}

/// Marking the chain's head entry as removed updates the head of the
/// physical chain and nothing else.
#[verifier::rlimit(100)]
proof fn mark_head<T>(q0: Queue<T>, q1: Queue<T>, h: usize)
    requires
        q0.wf(),
        q0.oldest == Some(h),
        q1.same_links(&q0),
        q1.n_slots() == q0.n_slots(),
        forall|j: int|
            0 <= j < q0.entries@.len() && j != h ==> #[trigger] q1.entries@[j] == q0.entries@[j],
        q1.entries@[h as int].instance == q0.entries@[h as int].instance,
        q1.entries@[h as int].next == q0.entries@[h as int].next,
        q1.entries@[h as int].removed,
    ensures
        q1.wf(),
        q1.phys() == q0.phys().update(0, (q0.phys()[0].0, true)),
{
    let es0 = q0.entries@;
    let es1 = q1.entries@;
    let ch = q0.chain@;
    assert(ch[0] == h);
    assert forall|j: int| 0 <= j < es0.len() implies (#[trigger] es1[j]).instance
        == es0[j].instance && es1[j].next == es0[j].next by {
        if j != h {
            assert(es1[j] == es0[j]);
        }
    }
    wf_transfer(q0, q1);
    assert forall|m: int| 0 <= m < ch.len() implies q1.phys()[m] == q0.phys().update(
        0,
        (q0.phys()[0].0, true),
    )[m] by {
        if m != 0 {
            chain_sorted_step(ch, 0, m);
            assert(ch[0] < ch[m]);
            assert(es1[ch[m] as int] == es0[ch[m] as int]);
        }
    }
    assert(q1.phys() =~= q0.phys().update(0, (q0.phys()[0].0, true)));
}

/// Transitive step for [`chain_sorted`].
proof fn chain_sorted_step(ch: Seq<usize>, m: int, m2: int)
    requires
        forall|k: int| 0 < k < ch.len() ==> ch[k - 1] < #[trigger] ch[k],
        0 <= m < m2 < ch.len(),
    ensures
        ch[m] < ch[m2],
    decreases m2 - m,
{
    if m2 == m + 1 {
    } else {
        chain_sorted_step(ch, m, m2 - 1);
    }
}

} // verus!
