//! The entry of one key in a lock table: who holds the key may keep a lock in
//! memory for as long as the write takes.

use vstd::prelude::*;

verus! {

/// An entry for a key. Whoever can change it holds the key.
#[derive(Debug)]
pub struct KeyHandle<L> {
    pub key: Vec<u8>,
    /// Whether the entry is in a lock table.
    pub in_table: bool,
    pub lock_store: Option<L>,
}

/// References to entries that were given back on a thread and are not freed
/// yet. The last reference to an entry must not be freed while its guard is
/// going away, so it is kept until the thread takes a key again.
#[derive(Debug)]
pub struct RetiredHandles<H> {
    handles: Vec<H>,
}

impl<H> View for RetiredHandles<H> {
    type V = Seq<H>;

    closed spec fn view(&self) -> Seq<H> {
        self.handles@
    }
}

/// What the thread keeps once a reference was retired.
pub open spec fn kept<H>(retired: Seq<H>, reference: H, thread_ends: bool) -> Seq<H> {
    if thread_ends {
        retired
    } else {
        retired.push(reference)
    }
}

/// What comes back when a reference is retired.
pub open spec fn given_back<H>(reference: H, thread_ends: bool) -> Option<H> {
    if thread_ends {
        Some(reference)
    } else {
        None
    }
}

impl<H> RetiredHandles<H> {
    pub fn new() -> (r: RetiredHandles<H>)
        ensures
            r@ == Seq::<H>::empty(),
    {
        RetiredHandles { handles: Vec::new() }
    }

    /// Frees all references.
    pub fn reclaim_retired(&mut self)
        ensures
            final(self)@ == Seq::<H>::empty(),
    {
        self.handles.clear();
    }

    /// Keeps a reference. Where the thread is at its end and keeps nothing any
    /// more, the reference comes back: it is never freed.
    pub fn retire(&mut self, handle: H, thread_ends: bool) -> (r: Option<H>)
        ensures
            r == given_back(handle, thread_ends),
            final(self)@ == kept(old(self)@, handle, thread_ends),
    {
        if thread_ends {
            Some(handle)
        } else {
            self.handles.push(handle);
            None
        }
    }
}

impl<L> KeyHandle<L> {
    /// The entry after the key was given back.
    pub open spec fn released(self) -> KeyHandle<L> {
        KeyHandle { lock_store: None, ..self }
    }

    /// An entry without a lock, in no table.
    pub fn new(key: Vec<u8>) -> (r: KeyHandle<L>)
        ensures
            r.key == key,
            !r.in_table,
            r.lock_store is None,
    {
        KeyHandle { key, in_table: false, lock_store: None }
    }

    /// Takes the key. References that were retired on this thread are freed
    /// first.
    pub fn lock<'a, H>(&'a mut self, retired: &mut RetiredHandles<H>) -> (r: KeyHandleGuard<'a, L>)
        ensures
            *r.handle == *old(self),
            *final(r.handle) == *final(self),
            final(retired)@ == Seq::<H>::empty(),
    {
        retired.reclaim_retired();
        KeyHandleGuard { handle: self }
    }

    /// Looks at the lock.
    pub fn with_lock<T, F: FnOnce(&Option<L>) -> T>(&self, f: F) -> (r: T)
        requires
            f.requires((&self.lock_store,)),
        ensures
            f.ensures((&self.lock_store,), r),
    {
        f(&self.lock_store)
    }

    /// Takes note that the entry is in a lock table.
    pub fn set_table(&mut self)
        ensures
            *final(self) == (KeyHandle { in_table: true, ..*old(self) }),
    {
        self.in_table = true;
    }

    /// What is to be removed from the lock table when the entry goes away.
    pub fn table_key(&self) -> (r: Option<&Vec<u8>>)
        ensures
            r == if self.in_table {
                Some(&self.key)
            } else {
                None
            },
    {
        if self.in_table {
            Some(&self.key)
        } else {
            None
        }
    }
}

/// A key that is held.
#[derive(Debug)]
pub struct KeyHandleGuard<'a, L> {
    pub handle: &'a mut KeyHandle<L>,
}

impl<'a, L> KeyHandleGuard<'a, L> {
    pub fn key(&self) -> (r: &Vec<u8>)
        ensures
            *r == old(self.handle).key,
    {
        &self.handle.key
    }

    /// Changes the lock that is kept in memory.
    pub fn with_lock<T, F: FnOnce(&mut Option<L>) -> T>(&mut self, f: F) -> (r: T)
        requires
            forall|l: &mut Option<L>|
                *l == old(self).handle.lock_store ==> #[trigger] f.requires((l,)),
        ensures
            final(self).handle.key == old(self).handle.key,
            final(self).handle.in_table == old(self).handle.in_table,
            *final(final(self).handle) == *final(old(self).handle),
            exists|l: &mut Option<L>| #[trigger]
                f.ensures((l,), r) && *l == old(self).handle.lock_store && *final(l)
                    == final(self).handle.lock_store,
    {
        f(&mut self.handle.lock_store)
    }

    /// Gives the key back. The lock is kept in memory only until the write to
    /// the store is done, so it goes now. The reference is retired; it comes
    /// back where the thread keeps nothing any more.
    pub fn release<H>(
        self,
        reference: H,
        retired: &mut RetiredHandles<H>,
        thread_ends: bool,
    ) -> (r: Option<H>)
        ensures
            *final(self.handle) == old(self.handle).released(),
            r == given_back(reference, thread_ends),
            final(retired)@ == kept(old(retired)@, reference, thread_ends),
    {
        self.handle.lock_store = None;
        retired.retire(reference, thread_ends)
    }
}

/// Giving a key back takes the lock out of memory, whatever the holder made of
/// it, and frees no reference: the one to the entry is kept or comes back, and
/// those that were kept before still are.
pub proof fn lemma_release_frees_nothing<L, H>(
    entry: KeyHandle<L>,
    retired: Seq<H>,
    reference: H,
    thread_ends: bool,
)
    ensures
        entry.released().lock_store is None,
        entry.released().key == entry.key,
        entry.released().in_table == entry.in_table,
        kept(retired, reference, thread_ends).contains(reference) || given_back(
            reference,
            thread_ends,
        ) == Some(reference),
        retired.is_prefix_of(kept(retired, reference, thread_ends)),
{
    if !thread_ends {
        assert(kept(retired, reference, thread_ends)[retired.len() as int] == reference);
    }
}

/// A reference that is retired is in one place afterwards: behind those that
/// the thread keeps, or, where the thread is at its end, back with the caller.
pub proof fn lemma_retired_reference_is_in_one_place<H>(retired: Seq<H>, reference: H)
    ensures
        given_back(reference, true) == Some(reference),
        kept(retired, reference, true) == retired,
        given_back(reference, false) is None,
        kept(retired, reference, false).len() == retired.len() + 1,
        kept(retired, reference, false).last() == reference,
        kept(retired, reference, false).take(retired.len() as int) == retired,
{
    assert(kept(retired, reference, false).take(retired.len() as int) =~= retired);
}

} // verus!
