use vstd::prelude::*;

verus! {

/// Why a lock was not granted.
#[derive(PartialEq, Eq, Structural, Clone, Copy, Debug)]
pub enum LockError {
    /// A previous holder panicked while holding the lock; the value may be inconsistent.
    Poisoned,
}

/// What one lock attempt found.
#[derive(PartialEq, Eq, Structural, Clone, Copy, Debug)]
pub enum LockPoll {
    /// The caller now holds the lock.
    Acquired,
    /// Another holder has it: the caller blocks until it is released.
    Busy,
    /// The lock is free but poisoned.
    Failed(LockError),
}

/// A value shared by several owners through counted handles, reached only
/// through a lock held by at most one owner at a time.
pub struct SharedResource<V> {
    value: Option<V>,
    handles: usize,
    holder: Option<usize>,
    poisoned: bool,
}

/// The abstract state of a shared resource.
pub struct SharedView<V> {
    /// The value, until the last handle is dropped.
    pub value: Option<V>,
    /// How many handles are live.
    pub handles: nat,
    /// Which owner holds the lock, if any.
    pub holder: Option<usize>,
    pub poisoned: bool,
}

/// What a lock attempt by `who` grants, and the state after it.
pub open spec fn lock_step<V>(v: SharedView<V>, who: usize) -> (LockPoll, SharedView<V>) {
    if v.holder is Some {
        (LockPoll::Busy, v)
    } else if v.poisoned {
        (LockPoll::Failed(LockError::Poisoned), v)
    } else {
        (LockPoll::Acquired, SharedView { holder: Some(who), ..v })
    }
}

impl<V> View for SharedResource<V> {
    type V = SharedView<V>;

    closed spec fn view(&self) -> SharedView<V> {
        SharedView {
            value: self.value,
            handles: self.handles as nat,
            holder: self.holder,
            poisoned: self.poisoned,
        }
    }
}

impl<V> SharedResource<V> {
    /// The value is kept exactly while some handle is live.
    pub closed spec fn wf(&self) -> bool {
        self.value is Some <==> self.handles > 0
    }

    /// Wraps `value` behind one handle, with the lock free.
    pub fn new(value: V) -> (r: SharedResource<V>)
        ensures
            r.wf(),
            r@ == (SharedView { value: Some(value), handles: 1, holder: None::<usize>, poisoned: false }),
    {
        SharedResource { value: Some(value), handles: 1, holder: None, poisoned: false }
    }

    /// Number of live handles.
    pub fn handle_count(&self) -> (r: usize)
        ensures
            r == self@.handles,
    {
        self.handles
    }

    /// Makes one more handle to the same value.
    pub fn clone_handle(&mut self)
        requires
            old(self).wf(),
            old(self)@.handles > 0,
            old(self)@.handles < usize::MAX,
        ensures
            final(self).wf(),
            final(self)@ == (SharedView { handles: old(self)@.handles + 1, ..old(self)@ }),
    {
        self.handles = self.handles + 1;
    }

    /// Gives up one handle; the value is destroyed, and handed back, when it was the last.
    pub fn drop_handle(&mut self) -> (r: Option<V>)
        requires
            old(self).wf(),
            old(self)@.handles > 0,
        ensures
            final(self).wf(),
            final(self)@.handles == old(self)@.handles - 1,
            final(self)@.holder == old(self)@.holder,
            final(self)@.poisoned == old(self)@.poisoned,
            old(self)@.handles == 1 ==> r == old(self)@.value && final(self)@.value is None,
            old(self)@.handles > 1 ==> r is None && final(self)@.value == old(self)@.value,
    {
        self.handles = self.handles - 1;
        if self.handles == 0 {
            self.value.take()
        } else {
            None
        }
    }

    /// Tries to take the lock for `who`: granted when free and not poisoned.
    pub fn lock(&mut self, who: usize) -> (r: LockPoll)
        requires
            old(self).wf(),
        ensures
            final(self).wf(),
            (r, final(self)@) == lock_step(old(self)@, who),
    {
        if self.holder.is_some() {
            LockPoll::Busy
        } else if self.poisoned {
            LockPoll::Failed(LockError::Poisoned)
        } else {
            self.holder = Some(who);
            LockPoll::Acquired
        }
    }

    /// Releases the lock that `who` holds; a release during a panic poisons it.
    pub fn unlock(&mut self, who: usize, panicking: bool)
        requires
            old(self).wf(),
            old(self)@.holder == Some(who),
        ensures
            final(self).wf(),
            final(self)@ == (SharedView {
                holder: None::<usize>,
                poisoned: old(self)@.poisoned || panicking,
                ..old(self)@
            }),
    {
        self.holder = None;
        self.poisoned = self.poisoned || panicking;
    }

    /// Whether a holder panicked while holding the lock.
    pub fn is_poisoned(&self) -> (r: bool)
        ensures
            r == self@.poisoned,
    {
        self.poisoned
    }

    /// The value, read by the holder of the lock.
    pub fn get(&self, who: usize) -> (r: &V)
        requires
            self.wf(),
            self@.handles > 0,
            self@.holder == Some(who),
        ensures
            self@.value == Some(*r),
    {
        self.value.as_ref().unwrap()
    }

    /// Puts `value` in place of the current value, by the holder of the lock,
    /// and hands back the value it replaced.
    pub fn replace(&mut self, who: usize, value: V) -> (r: V)
        requires
            old(self).wf(),
            old(self)@.handles > 0,
            old(self)@.holder == Some(who),
        ensures
            final(self).wf(),
            old(self)@.value == Some(r),
            final(self)@ == (SharedView { value: Some(value), ..old(self)@ }),
    {
        let old_value = self.value.take();
        self.value = Some(value);
        old_value.unwrap()
    }

    /// Replaces the value, by the holder of the lock.
    pub fn set(&mut self, who: usize, value: V)
        requires
            old(self).wf(),
            old(self)@.handles > 0,
            old(self)@.holder == Some(who),
        ensures
            final(self).wf(),
            final(self)@ == (SharedView { value: Some(value), ..old(self)@ }),
    {
        self.value = Some(value);
    }
}

/// A connection log shared between threads: each thread records the id it
/// connected with.
pub struct Database {
    connections: Vec<u32>,
}

impl View for Database {
    type V = Seq<u32>;

    closed spec fn view(&self) -> Seq<u32> {
        self.connections@
    }
}

impl Database {
    /// A database with no connection.
    pub fn new() -> (r: Database)
        ensures
            r@ == Seq::<u32>::empty(),
    {
        Database { connections: Vec::new() }
    }

    /// Records a connection by `id`, after those already made.
    pub fn connect(&mut self, id: u32)
        ensures
            final(self)@ == old(self)@.push(id),
    {
        self.connections.push(id);
    }

    /// Gives up the database, keeping its connection ids.
    pub fn into_connections(self) -> (r: Vec<u32>)
        ensures
            r@ == self@,
    {
        self.connections
    }

    /// The connection ids, in the order they connected.
    pub fn connections(&self) -> (r: &Vec<u32>)
        ensures
            r@ == self@,
    {
        &self.connections
    }
}

/// Records one connection by `id` in the shared database, under the lock that
/// `who` takes for the duration; the lock is free and not poisoned before and after.
pub fn connect_locked(db: &mut SharedResource<Database>, who: usize, id: u32)
    requires
        old(db).wf(),
        old(db)@.handles > 0,
        old(db)@.holder is None,
        !old(db)@.poisoned,
    ensures
        final(db).wf(),
        final(db)@.handles == old(db)@.handles,
        final(db)@.holder is None,
        !final(db)@.poisoned,
        final(db)@.value is Some,
        final(db)@.value->Some_0@ == old(db)@.value->Some_0@.push(id),
{
    let granted = db.lock(who);
    proof {
        assert(granted == LockPoll::Acquired);
    }
    let mut current = db.replace(who, Database::new());
    current.connect(id);
    db.set(who, current);
    db.unlock(who, false);
}

/// Takes the lock around one database, connects with id 1 and releases it.
pub fn use_mutual_exclusion_locks() -> (r: Vec<u32>)
    ensures
        r@ == seq![1u32],
{
    let mut db = SharedResource::new(Database::new());
    connect_locked(&mut db, 0, 1);
    let last = db.drop_handle();
    let d = last.unwrap();
    proof {
        assert(d@ =~= seq![1u32]);
    }
    d.into_connections()
}

/// One database shared by a handle per thread: each thread takes its own
/// handle, connects with its id under the lock and gives the handle up. The
/// threads are granted the lock in `order`, which the scheduler decides; each
/// finds it free and unpoisoned, and the database ends up holding the ids in
/// exactly that order, with only the first handle left.
pub fn share_state_between_threads(order: &Vec<u32>) -> (r: Vec<u32>)
    requires
        order@.len() < usize::MAX,
    ensures
        r@ == order@,
{
    let mut db = SharedResource::new(Database::new());
    let mut k: usize = 0;
    while k < order.len()
        invariant
            0 <= k <= order@.len(),
            order@.len() < usize::MAX,
            db.wf(),
            db@.handles == 1,
            db@.holder is None,
            !db@.poisoned,
            db@.value is Some,
            db@.value->Some_0@ == order@.subrange(0, k as int),
        decreases order@.len() - k,
    {
        db.clone_handle();
        connect_locked(&mut db, k + 1, order[k]);
        let others = db.drop_handle();
        proof {
            assert(others is None);
            assert(order@.subrange(0, k as int).push(order@[k as int]) =~= order@.subrange(0, k + 1));
        }
        k = k + 1;
    }
    let last = db.drop_handle();
    let d = last.unwrap();
    proof {
        assert(order@.subrange(0, order@.len() as int) =~= order@);
    }
    d.into_connections()
}

} // verus!
