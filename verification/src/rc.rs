//! A counted pointer: one heap cell, shared by the handles that were made for it.
//!
//! The cell holds the value and the number of its handles. A handle is the
//! right to use the cell: copying a handle raises the count, destroying one
//! lowers it, and the destruction that takes the count to zero tells the owner
//! of the storage to free the cell. Cells that refer to each other in a cycle
//! are never freed.

use std::marker::PhantomData;
use vstd::prelude::*;

verus! {

/// What a handle can do to its cell.
pub enum HandleEvent {
    /// A handle is copied.
    Cloned,
    /// A handle is destroyed.
    Destroyed,
}

/// What a heap cell is, for the contracts: the wrapped value and the number of
/// handles that refer to the cell.
pub struct HeapCell<T> {
    pub value: T,
    pub count: nat,
}

impl<T> HeapCell<T> {
    /// The cell right after its allocation: one handle refers to it.
    pub open spec fn fresh(value: T) -> Self {
        HeapCell { value, count: 1 }
    }

    /// A cell is live until its last handle is destroyed.
    pub open spec fn live(self) -> bool {
        self.count >= 1
    }

    /// The cell after one event: the value stays, the count follows the
    /// handles.
    pub open spec fn step(self, event: HandleEvent) -> Self {
        HeapCell {
            value: self.value,
            count: match event {
                HandleEvent::Cloned => self.count + 1,
                HandleEvent::Destroyed => (self.count - 1) as nat,
            },
        }
    }

    /// The cell after `events`, one after the other.
    pub open spec fn after(self, events: Seq<HandleEvent>) -> Self
        decreases events.len(),
    {
        if events.len() == 0 {
            self
        } else {
            self.after(events.drop_last()).step(events.last())
        }
    }
}

/// A heap cell: the wrapped value next to the count of its handles.
pub struct RcInner<T> {
    value: T,
    refcount: usize,
}

impl<T> View for RcInner<T> {
    type V = HeapCell<T>;

    closed spec fn view(&self) -> HeapCell<T> {
        HeapCell { value: self.value, count: self.refcount as nat }
    }
}

impl<T> RcInner<T> {
    /// The number of handles that refer to this cell.
    pub fn refcount(&self) -> (count: usize)
        ensures
            count == self@.count,
    {
        self.refcount
    }
}

/// A handle to a heap cell.
///
/// A handle holds no address. Whoever stores the cell passes it to each
/// operation, together with a handle that was made for it.
pub struct Rc<T> {
    _marker: PhantomData<RcInner<T>>,
}

impl<T> Rc<T> {
    /// Allocates the cell for `value` and returns it with its first handle.
    pub fn new(value: T) -> (made: (Rc<T>, RcInner<T>))
        ensures
            made.1@ == HeapCell::fresh(value),
    {
        (Rc { _marker: PhantomData }, RcInner { value, refcount: 1 })
    }

    /// Makes one more handle for `inner`: the count takes the new handle in,
    /// the value stays. The count must have room for it.
    pub fn clone(&self, inner: &mut RcInner<T>) -> (handle: Rc<T>)
        requires
            old(inner)@.live(),
            old(inner)@.count < usize::MAX,
        ensures
            final(inner)@ == old(inner)@.step(HandleEvent::Cloned),
    {
        inner.refcount += 1;
        Rc { _marker: PhantomData }
    }

    /// Reads the value of `inner`, which is there as long as the cell is
    /// live. The count stays.
    pub fn deref<'a>(&self, inner: &'a RcInner<T>) -> (value: &'a T)
        requires
            inner@.live(),
        ensures
            *value == inner@.value,
    {
        &inner.value
    }

    /// Destroys this handle. The result is `true` when it was the last one:
    /// the cell is then dead, and its storage is to be freed now.
    #[must_use]
    pub fn drop(self, inner: &mut RcInner<T>) -> (freed: bool)
        requires
            old(inner)@.live(),
        ensures
            final(inner)@ == old(inner)@.step(HandleEvent::Destroyed),
            freed <==> !final(inner)@.live(),
    {
        inner.refcount -= 1;
        inner.refcount == 0
    }
}

/// The number of handles that are left after `events`, starting from the one
/// handle that comes with a fresh cell.
pub open spec fn handles_after(events: Seq<HandleEvent>) -> int
    decreases events.len(),
{
    if events.len() == 0 {
        1
    } else {
        let before = handles_after(events.drop_last());
        match events.last() {
            HandleEvent::Cloned => before + 1,
            HandleEvent::Destroyed => before - 1,
        }
    }
}

/// Every event is the act of a handle: before each of them a handle is left.
pub open spec fn orderly(events: Seq<HandleEvent>) -> bool {
    forall|i: int| 0 <= i < events.len() ==> handles_after(#[trigger] events.take(i)) >= 1
}

/// An orderly history is orderly up to each of its points.
pub proof fn lemma_orderly_up_to(events: Seq<HandleEvent>, at: int)
    requires
        orderly(events),
        0 <= at <= events.len(),
    ensures
        orderly(events.take(at)),
{
    let shorter = events.take(at);
    assert forall|i: int| 0 <= i < shorter.len() implies handles_after(
        #[trigger] shorter.take(i),
    ) >= 1 by {
        assert(shorter.take(i) == events.take(i));
    }
}

/// Whatever handles are copied and destroyed, in whatever order, the count of
/// the cell is the number of handles that are left, and the value is the one
/// that the cell was allocated with. So the cell is live, and its value can be
/// read, as long as a handle is left.
pub proof fn lemma_count_is_number_of_handles<T>(value: T, events: Seq<HandleEvent>)
    requires
        orderly(events),
    ensures
        HeapCell::fresh(value).after(events).count == handles_after(events),
        HeapCell::fresh(value).after(events).value == value,
        HeapCell::fresh(value).after(events).live() <==> handles_after(events) >= 1,
    decreases events.len(),
{
    if events.len() > 0 {
        assert(events.drop_last() == events.take(events.len() - 1));
        lemma_orderly_up_to(events, events.len() - 1);
        lemma_count_is_number_of_handles(value, events.drop_last());
    }
}

/// The cell is freed once, right after its last handle is destroyed: the
/// event at `at` leaves the cell dead exactly when it destroys the last
/// handle, and no event follows it then.
pub proof fn lemma_freed_once_with_last_handle<T>(value: T, events: Seq<HandleEvent>, at: int)
    requires
        orderly(events),
        0 <= at < events.len(),
    ensures
        HeapCell::fresh(value).after(events.take(at)).live(),
        !HeapCell::fresh(value).after(events.take(at + 1)).live() <==> events[at] is Destroyed
            && handles_after(events.take(at)) == 1,
        !HeapCell::fresh(value).after(events.take(at + 1)).live() ==> at + 1 == events.len(),
{
    let upto = events.take(at + 1);
    assert(upto.drop_last() == events.take(at));
    assert(upto.last() == events[at]);
    lemma_orderly_up_to(events, at);
    lemma_orderly_up_to(events, at + 1);
    lemma_count_is_number_of_handles(value, events.take(at));
    lemma_count_is_number_of_handles(value, upto);
    if at + 1 < events.len() {
        assert(handles_after(events.take(at + 1)) >= 1);
    }
}

} // verus!
