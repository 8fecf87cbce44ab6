//! A guarded cell: a value whose borrows are checked while the program runs.
//!
//! The cell keeps a marker that says which guards are out: none, some number
//! of read guards, or the one write guard. A request that the marker cannot
//! admit is denied and changes nothing; releasing a guard takes the marker
//! back.

use std::marker::PhantomData;
use vstd::prelude::*;

verus! {

/// What can happen at a cell.
pub enum GuardEvent {
    /// A read guard is asked for.
    Borrow,
    /// The write guard is asked for.
    BorrowMut,
    /// A read guard is released.
    ReleaseRead,
    /// The write guard is released.
    ReleaseWrite,
}

/// The marker of a cell, for the contracts.
pub enum Marker {
    /// No guard is out.
    Unshared,
    /// That many read guards are out, and no write guard.
    Shared(nat),
    /// The write guard is out, and no read guard.
    Mutable,
}

impl Marker {
    /// A marker never counts zero read guards: a cell without guards is
    /// `Unshared`.
    pub open spec fn valid(self) -> bool {
        self matches Marker::Shared(n) ==> n >= 1
    }

    /// Some read guard is out.
    pub open spec fn reading(self) -> bool {
        self matches Marker::Shared(n) && n >= 1
    }

    /// A read guard can join: the write guard is not out.
    pub open spec fn admits_reader(self) -> bool {
        !(self is Mutable)
    }

    /// The write guard can be given: no guard is out.
    pub open spec fn admits_writer(self) -> bool {
        self is Unshared
    }

    /// The marker after one event. A request that is denied leaves it as it
    /// is, and so does a release that has no guard to end.
    pub open spec fn step(self, event: GuardEvent) -> Self {
        match event {
            GuardEvent::Borrow => match self {
                Marker::Unshared => Marker::Shared(1),
                Marker::Shared(n) => Marker::Shared(n + 1),
                Marker::Mutable => Marker::Mutable,
            },
            GuardEvent::BorrowMut => match self {
                Marker::Unshared => Marker::Mutable,
                _ => self,
            },
            GuardEvent::ReleaseRead => match self {
                Marker::Shared(n) if n >= 2 => Marker::Shared((n - 1) as nat),
                Marker::Shared(_) => Marker::Unshared,
                _ => self,
            },
            GuardEvent::ReleaseWrite => match self {
                Marker::Mutable => Marker::Unshared,
                _ => self,
            },
        }
    }

    /// The marker after `events`, one after the other.
    pub open spec fn after(self, events: Seq<GuardEvent>) -> Self
        decreases events.len(),
    {
        if events.len() == 0 {
            self
        } else {
            self.after(events.drop_last()).step(events.last())
        }
    }
}

/// What a guarded cell is, for the contracts: the wrapped value and the marker.
pub struct GuardedCell<T> {
    pub value: T,
    pub marker: Marker,
}

impl<T> GuardedCell<T> {
    /// The cell right after it was made: no guard is out.
    pub open spec fn fresh(value: T) -> Self {
        GuardedCell { value, marker: Marker::Unshared }
    }

    /// The cell after one event: the value stays, the marker moves.
    pub open spec fn step(self, event: GuardEvent) -> Self {
        GuardedCell { value: self.value, marker: self.marker.step(event) }
    }

    /// The cell after `events`, one after the other.
    pub open spec fn after(self, events: Seq<GuardEvent>) -> Self
        decreases events.len(),
    {
        if events.len() == 0 {
            self
        } else {
            self.after(events.drop_last()).step(events.last())
        }
    }
}

/// The marker as the cell stores it.
#[derive(Clone, Copy, PartialEq, Eq, Structural, Debug)]
pub enum ReferenceType {
    /// That many read guards are out.
    Shared(usize),
    /// No guard is out.
    Unshared,
    /// The write guard is out.
    Mutable,
}

impl View for ReferenceType {
    type V = Marker;

    open spec fn view(&self) -> Marker {
        match *self {
            ReferenceType::Shared(n) => Marker::Shared(n as nat),
            ReferenceType::Unshared => Marker::Unshared,
            ReferenceType::Mutable => Marker::Mutable,
        }
    }
}

/// The stored marker, which never counts zero read guards.
struct Flag {
    state: ReferenceType,
}

impl Flag {
    #[verifier::type_invariant]
    spec fn valid(&self) -> bool {
        self.state@.valid()
    }
}

/// A cell that owns a value and checks the borrows of it at run time.
pub struct RefCell<T> {
    value: T,
    flag: Flag,
}

impl<T> View for RefCell<T> {
    type V = GuardedCell<T>;

    closed spec fn view(&self) -> GuardedCell<T> {
        GuardedCell { value: self.value, marker: self.flag.state@ }
    }
}

/// A read guard of a cell.
///
/// A guard holds no reference to its cell. Whoever holds the cell passes it
/// to each operation, together with a guard that the cell gave out.
pub struct Ref<T> {
    _marker: PhantomData<T>,
}

/// The write guard of a cell.
pub struct RefMut<T> {
    _marker: PhantomData<T>,
}

impl<T> RefCell<T> {
    /// A cell that holds `value` and has no guard out.
    pub fn new(value: T) -> (cell: Self)
        ensures
            cell@ == GuardedCell::fresh(value),
    {
        RefCell { value, flag: Flag { state: ReferenceType::Unshared } }
    }

    /// The marker of this cell.
    pub fn state(&self) -> (state: ReferenceType)
        ensures
            state@ == self@.marker,
            state@.valid(),
    {
        proof {
            use_type_invariant(&self.flag);
        }
        self.flag.state
    }

    /// Asks for a read guard. It is denied only while the write guard is out.
    /// The count of read guards must have room for one more.
    pub fn borrow(&mut self) -> (guard: Option<Ref<T>>)
        requires
            old(self)@.marker != Marker::Shared(usize::MAX as nat),
        ensures
            guard is Some <==> old(self)@.marker.admits_reader(),
            final(self)@ == old(self)@.step(GuardEvent::Borrow),
    {
        match self.flag.state {
            ReferenceType::Unshared => {
                self.flag = Flag { state: ReferenceType::Shared(1) };
                Some(Ref { _marker: PhantomData })
            },
            ReferenceType::Shared(n) => {
                self.flag = Flag { state: ReferenceType::Shared(n + 1) };
                Some(Ref { _marker: PhantomData })
            },
            _ => None,
        }
    }

    /// Asks for the write guard. It is denied while any guard is out.
    pub fn borrow_mut(&mut self) -> (guard: Option<RefMut<T>>)
        ensures
            guard is Some <==> old(self)@.marker.admits_writer(),
            final(self)@ == old(self)@.step(GuardEvent::BorrowMut),
    {
        match self.flag.state {
            ReferenceType::Unshared => {
                self.flag = Flag { state: ReferenceType::Mutable };
                Some(RefMut { _marker: PhantomData })
            },
            _ => None,
        }
    }
}

impl<T> Ref<T> {
    /// Reads the value of `cell` through this guard.
    pub fn deref<'a>(&self, cell: &'a RefCell<T>) -> (value: &'a T)
        requires
            cell@.marker.reading(),
        ensures
            *value == cell@.value,
    {
        &cell.value
    }

    /// Releases this guard: the marker of `cell` counts one read guard fewer,
    /// and says `Unshared` when this was the only one.
    pub fn drop(self, cell: &mut RefCell<T>)
        requires
            old(cell)@.marker.reading(),
        ensures
            final(cell)@ == old(cell)@.step(GuardEvent::ReleaseRead),
    {
        match cell.flag.state {
            ReferenceType::Shared(n) => {
                if n < 2 {
                    cell.flag = Flag { state: ReferenceType::Unshared };
                } else {
                    cell.flag = Flag { state: ReferenceType::Shared(n - 1) };
                }
            },
            _ => {},
        }
    }
}

impl<T> RefMut<T> {
    /// Reads the value of `cell` through this guard.
    pub fn deref<'a>(&self, cell: &'a RefCell<T>) -> (value: &'a T)
        requires
            cell@.marker is Mutable,
        ensures
            *value == cell@.value,
    {
        &cell.value
    }

    /// Gives the value of `cell` out for writing. What the caller leaves
    /// there is the value of the cell afterwards; the marker stays.
    pub fn deref_mut<'a>(&mut self, cell: &'a mut RefCell<T>) -> (value: &'a mut T)
        requires
            old(cell)@.marker is Mutable,
        ensures
            *value == old(cell)@.value,
            final(cell)@ == (GuardedCell { value: *final(value), marker: Marker::Mutable }),
    {
        &mut cell.value
    }

    /// Releases this guard: no guard of `cell` is out any more.
    pub fn drop(self, cell: &mut RefCell<T>)
        requires
            old(cell)@.marker is Mutable,
        ensures
            final(cell)@ == old(cell)@.step(GuardEvent::ReleaseWrite),
    {
        cell.flag = Flag { state: ReferenceType::Unshared };
    }
}

/// The guards that callers hold.
pub struct Guards {
    pub readers: nat,
    pub writers: nat,
}

impl Guards {
    /// The guards that are out after one event at a cell with this marker: a
    /// request adds a guard where the marker admits it, a release ends one.
    pub open spec fn step(self, marker: Marker, event: GuardEvent) -> Self {
        match event {
            GuardEvent::Borrow => Guards {
                readers: if marker.admits_reader() {
                    self.readers + 1
                } else {
                    self.readers
                },
                writers: self.writers,
            },
            GuardEvent::BorrowMut => Guards {
                readers: self.readers,
                writers: if marker.admits_writer() {
                    self.writers + 1
                } else {
                    self.writers
                },
            },
            GuardEvent::ReleaseRead => Guards {
                readers: (self.readers - 1) as nat,
                writers: self.writers,
            },
            GuardEvent::ReleaseWrite => Guards {
                readers: self.readers,
                writers: (self.writers - 1) as nat,
            },
        }
    }

    /// The guards that are out after `events` at a cell that was fresh before
    /// them.
    pub open spec fn after(events: Seq<GuardEvent>) -> Self
        decreases events.len(),
    {
        if events.len() == 0 {
            Guards { readers: 0, writers: 0 }
        } else {
            Guards::after(events.drop_last()).step(
                Marker::Unshared.after(events.drop_last()),
                events.last(),
            )
        }
    }
}

impl Marker {
    /// The marker accounts for the guards that are out: it counts the read
    /// guards, and says `Mutable` for the one write guard.
    pub open spec fn accounts_for(self, guards: Guards) -> bool {
        match self {
            Marker::Unshared => guards.readers == 0 && guards.writers == 0,
            Marker::Shared(n) => n >= 1 && guards.readers == n && guards.writers == 0,
            Marker::Mutable => guards.readers == 0 && guards.writers == 1,
        }
    }
}

/// Only a guard that is out is released: before each release of a read guard
/// some read guard is out, and before each release of the write guard the
/// write guard is.
pub open spec fn orderly(events: Seq<GuardEvent>) -> bool {
    forall|i: int|
        0 <= i < events.len() ==> match events[i] {
            GuardEvent::ReleaseRead => Guards::after(#[trigger] events.take(i)).readers >= 1,
            GuardEvent::ReleaseWrite => Guards::after(events.take(i)).writers >= 1,
            _ => true,
        }
}

/// An orderly history is orderly up to each of its points.
pub proof fn lemma_orderly_up_to(events: Seq<GuardEvent>, at: int)
    requires
        orderly(events),
        0 <= at <= events.len(),
    ensures
        orderly(events.take(at)),
{
    let shorter = events.take(at);
    assert forall|i: int| 0 <= i < shorter.len() implies match shorter[i] {
        GuardEvent::ReleaseRead => Guards::after(#[trigger] shorter.take(i)).readers >= 1,
        GuardEvent::ReleaseWrite => Guards::after(shorter.take(i)).writers >= 1,
        _ => true,
    } by {
        assert(shorter.take(i) == events.take(i));
        assert(shorter[i] == events[i]);
    }
}

/// No request and no release touches the value, and the marker moves the
/// same way whatever the value is.
pub proof fn lemma_value_outlasts_guards<T>(cell: GuardedCell<T>, events: Seq<GuardEvent>)
    ensures
        cell.after(events) == (GuardedCell {
            value: cell.value,
            marker: cell.marker.after(events),
        }),
    decreases events.len(),
{
    if events.len() > 0 {
        lemma_value_outlasts_guards(cell, events.drop_last());
    }
}

/// One event keeps the account: where the marker accounts for the guards
/// and the event releases only a guard that is out, the marker after the
/// event accounts for the guards after it.
pub proof fn lemma_step_keeps_account(marker: Marker, guards: Guards, event: GuardEvent)
    requires
        marker.accounts_for(guards),
        event is ReleaseRead ==> guards.readers >= 1,
        event is ReleaseWrite ==> guards.writers >= 1,
    ensures
        marker.step(event).accounts_for(guards.step(marker, event)),
{
}

/// Whatever guards are asked for and released, in whatever order, the marker
/// of the cell accounts for the guards that are out. So a read guard and the
/// write guard are never out together, two write guards never are, and a
/// guard that is out finds the marker that its use and its release ask for.
pub proof fn lemma_marker_accounts_for_guards(events: Seq<GuardEvent>)
    requires
        orderly(events),
    ensures
        Marker::Unshared.after(events).accounts_for(Guards::after(events)),
        Marker::Unshared.after(events).valid(),
        !(Guards::after(events).readers >= 1 && Guards::after(events).writers >= 1),
        Guards::after(events).writers <= 1,
        Guards::after(events).readers >= 1 <==> Marker::Unshared.after(events).reading(),
        Guards::after(events).writers == 1 <==> Marker::Unshared.after(events) is Mutable,
    decreases events.len(),
{
    if events.len() > 0 {
        let before = events.drop_last();
        assert(before == events.take(events.len() - 1));
        lemma_orderly_up_to(events, events.len() - 1);
        lemma_marker_accounts_for_guards(before);
        lemma_step_keeps_account(
            Marker::Unshared.after(before),
            Guards::after(before),
            events.last(),
        );
    }
}

/// Any number of read guards can be out together: that many requests in a
/// row are all granted.
pub proof fn lemma_read_guards_coexist(n: nat)
    ensures
        orderly(Seq::new(n, |i: int| GuardEvent::Borrow)),
        Guards::after(Seq::new(n, |i: int| GuardEvent::Borrow)) == (Guards {
            readers: n,
            writers: 0,
        }),
    decreases n,
{
    let events = Seq::new(n, |i: int| GuardEvent::Borrow);
    if n > 0 {
        let shorter = Seq::new((n - 1) as nat, |i: int| GuardEvent::Borrow);
        assert(events.drop_last() == shorter);
        lemma_read_guards_coexist((n - 1) as nat);
        lemma_marker_accounts_for_guards(shorter);
    }
}

} // verus!
