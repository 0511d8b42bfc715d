//! Deferred reclamation: the audio thread gives objects away, another thread drops them.
use vstd::prelude::*;

verus! {

/// How much memory an object takes up and how it is aligned.
#[derive(Debug, Clone, Copy, PartialEq, Eq, Structural)]
pub struct DropVTable {
    pub size: usize,
    pub align: usize,
}

impl DropVTable {
    /// The table describes objects of type `T`.
    pub open spec fn describes<T>(self) -> bool {
        self.size == vstd::layout::size_of::<T>() && self.align == vstd::layout::align_of::<T>()
    }

    /// The table for objects of type `T`.
    pub fn of<T>() -> (vtable: Self)
        ensures
            vtable.describes::<T>(),
            vtable.size == vstd::layout::size_of::<T>(),
            vtable.align == vstd::layout::align_of::<T>(),
    {
        Self { size: core::mem::size_of::<T>(), align: core::mem::align_of::<T>() }
    }
}

/// Drops what others have given away.
pub struct GcContext {
    reclaimed: u64,
}

impl GcContext {
    /// How many objects have been dropped.
    pub closed spec fn count(&self) -> u64 {
        self.reclaimed
    }

    pub fn new() -> (gc: Self)
        ensures
            gc.count() == 0,
    {
        Self { reclaimed: 0 }
    }

    /// Turns an object into what can be queued for reclamation.
    pub fn defer_box<T>(value: Box<T>) -> (deferred: (Box<T>, DropVTable))
        ensures
            deferred.0 == value,
            deferred.1.describes::<T>(),
            deferred.1.size == vstd::layout::size_of::<T>(),
            deferred.1.align == vstd::layout::align_of::<T>(),
    {
        (value, DropVTable::of::<T>())
    }

    /// Drops the object and frees its memory.
    pub fn drop_and_dealloc<T>(&mut self, object: Box<T>, vtable: DropVTable)
        requires
            vtable.describes::<T>(),
            old(self).count() < u64::MAX,
        ensures
            final(self).count() == old(self).count() + 1,
    {
        let _reclaimed = object;
        self.reclaimed = self.reclaimed + 1;
    }

    pub fn reclaimed(&self) -> (reclaimed: u64)
        ensures
            reclaimed == self.count(),
    {
        self.reclaimed
    }
}

impl Default for GcContext {
    fn default() -> (gc: Self)
        ensures
            gc.count() == 0,
    {
        Self::new()
    }
}

/// What the cells of an emergency slot hold at one moment.
pub struct SlotCells<P> {
    /// The object; its presence is what makes the slot taken.
    pub ptr: Option<P>,
    /// How to reclaim the object.
    pub vtable: Option<DropVTable>,
    /// The table has been written.
    pub vtable_ready: bool,
}

impl<P> SlotCells<P> {
    /// A table that is said to be there is there.
    pub open spec fn wf(self) -> bool {
        self.vtable_ready ==> self.vtable is Some
    }

    /// The slot is free.
    pub open spec fn vacant(self) -> bool {
        self.ptr is None
    }

    /// What a reader gets that looks at the cells at this moment. An object that has not
    /// been published in full is left for the next look.
    pub open spec fn readable(self) -> Option<(P, DropVTable)> {
        if self.ptr is Some && self.vtable_ready {
            Some((self.ptr->0, self.vtable->0))
        } else {
            None
        }
    }

    /// The cells after each store of a writer that fills the slot: the table, the mark
    /// that it is there, and the object.
    pub open spec fn filling(self, ptr: P, vtable: DropVTable) -> Seq<SlotCells<P>> {
        let written = SlotCells { vtable: Some(vtable), ..self };
        let marked = SlotCells { vtable_ready: true, ..written };
        let published = SlotCells { ptr: Some(ptr), ..marked };
        seq![written, marked, published]
    }

    /// The cells after each store of a reader that empties the slot: the mark first, the
    /// object last.
    pub open spec fn emptying(self) -> Seq<SlotCells<P>> {
        let unmarked = SlotCells { vtable_ready: false, ..self };
        let emptied = SlotCells { ptr: None, ..unmarked };
        seq![unmarked, emptied]
    }
}

/// A last resort for one object when the reclamation queue is full.
///
/// `P` is an owning pointer to the object.
pub struct EmergencySlot<P> {
    cells: SlotCells<P>,
}

impl<P> EmergencySlot<P> {
    pub closed spec fn cells(&self) -> SlotCells<P> {
        self.cells
    }

    /// A free slot.
    pub fn new() -> (slot: Self)
        ensures
            slot.cells().wf(),
            slot.cells().vacant(),
            slot.cells().readable() is None,
            slot.cells().ptr is None,
            !slot.cells().vtable_ready,
    {
        Self { cells: SlotCells { ptr: None, vtable: None, vtable_ready: false } }
    }

    pub fn is_vacant(&self) -> (vacant: bool)
        ensures
            vacant == self.cells().vacant(),
            vacant == (self.cells().ptr is None),
    {
        self.cells.ptr.is_none()
    }

    /// Puts an object into a free slot. A slot that is taken hands it back.
    pub fn push(&mut self, object: P, vtable: DropVTable) -> (result: Result<(), P>)
        requires
            old(self).cells().wf(),
        ensures
            final(self).cells().wf(),
            old(self).cells().vacant() ==> result is Ok && final(self).cells()
                == old(self).cells().filling(object, vtable).last(),
            !old(self).cells().vacant() ==> result == Err::<(), P>(object) && final(self).cells()
                == old(self).cells(),
            old(self).cells().ptr is None ==> result is Ok && final(self).cells() == (SlotCells {
                ptr: Some(object),
                vtable: Some(vtable),
                vtable_ready: true,
            }),
            old(self).cells().ptr is Some ==> result == Err::<(), P>(object) && final(self).cells()
                == old(self).cells(),
    {
        if !self.is_vacant() {
            return Err(object);
        }
        self.cells.vtable = Some(vtable);
        self.cells.vtable_ready = true;
        self.cells.ptr = Some(object);
        Ok(())
    }

    /// Takes the object out of the slot.
    pub fn drain(&mut self) -> (result: Option<(P, DropVTable)>)
        requires
            old(self).cells().wf(),
        ensures
            final(self).cells().wf(),
            result == old(self).cells().readable(),
            final(self).cells() == if result is Some {
                old(self).cells().emptying().last()
            } else {
                old(self).cells()
            },
            result is Some <==> old(self).cells().ptr is Some && old(self).cells().vtable_ready,
            result matches Some((object, vtable)) ==> old(self).cells().ptr == Some(object)
                && old(self).cells().vtable == Some(vtable) && final(self).cells().ptr is None
                && !final(self).cells().vtable_ready,
            result is None ==> final(self).cells() == old(self).cells(),
    {
        if self.cells.ptr.is_none() {
            return None;
        }
        if !self.cells.vtable_ready {
            return None;
        }
        match self.cells.vtable {
            Some(vtable) => {
                self.cells.vtable_ready = false;
                match self.cells.ptr.take() {
                    Some(object) => Some((object, vtable)),
                    None => None,
                }
            },
            None => None,
        }
    }
}

impl<P> Default for EmergencySlot<P> {
    fn default() -> (slot: Self)
        ensures
            slot.cells().wf(),
            slot.cells().vacant(),
            slot.cells().readable() is None,
            slot.cells().ptr is None,
            !slot.cells().vtable_ready,
    {
        Self::new()
    }
}

/// A writer stores the object last, after the table and the mark, and a reader clears it last,
/// after the mark; no store changes more than one of the three, and none is done twice.
pub proof fn law_stores_keep_their_order<P>(cells: SlotCells<P>, ptr: P, vtable: DropVTable)
    ensures
        ({
            let filling = cells.filling(ptr, vtable);
            let emptying = cells.emptying();
            &&& filling.len() == 3
            &&& filling[0] == (SlotCells { vtable: Some(vtable), ..cells })
            &&& filling[1] == (SlotCells { vtable_ready: true, ..filling[0] })
            &&& filling[2] == (SlotCells { ptr: Some(ptr), ..filling[1] })
            &&& emptying.len() == 2
            &&& emptying[0] == (SlotCells { vtable_ready: false, ..cells })
            &&& emptying[1] == (SlotCells { ptr: None, ..emptying[0] })
        }),
{
}

/// A reader that looks while a writer fills a free slot sees nothing until the last
/// store, and then the whole of what was written.
pub proof fn law_half_filled_slot_reads_empty<P>(
    cells: SlotCells<P>,
    ptr: P,
    vtable: DropVTable,
    store: int,
)
    requires
        cells.vacant(),
        0 <= store < cells.filling(ptr, vtable).len(),
    ensures
        cells.filling(ptr, vtable)[store].wf(),
        cells.filling(ptr, vtable)[store].readable() == if store
            == cells.filling(ptr, vtable).len() - 1 {
            Some((ptr, vtable))
        } else {
            None
        },
{
}

/// A writer that looks while a reader empties a slot finds it taken until the last store,
/// so that it never writes over what is being read.
pub proof fn law_half_emptied_slot_is_taken<P>(cells: SlotCells<P>, store: int)
    requires
        cells.wf(),
        cells.readable() is Some,
        0 <= store < cells.emptying().len(),
    ensures
        cells.emptying()[store].wf(),
        cells.emptying()[store].vacant() <==> store == cells.emptying().len() - 1,
        cells.emptying()[store].readable() is None,
{
}

/// What goes into a free slot comes out of it, and leaves it free.
pub proof fn law_slot_roundtrip<P>(cells: SlotCells<P>, ptr: P, vtable: DropVTable)
    requires
        cells.vacant(),
    ensures
        cells.filling(ptr, vtable).last().readable() == Some((ptr, vtable)),
        cells.filling(ptr, vtable).last().emptying().last().vacant(),
{
}

} // verus!
