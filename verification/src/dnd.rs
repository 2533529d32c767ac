//! Vertical drag-and-drop reordering: the drag state machine and the
//! insertion-slot arithmetic. Pointer tracking and drawing live with the
//! application shell; this is the logic that decides indices and events.

use vstd::prelude::*;

verus! {

/// State of a vertical drag-and-drop list.
#[derive(Clone, Copy, PartialEq, Eq, Structural, Debug)]
pub enum DndState {
    /// No drag in progress.
    Idle,
    /// An item is being dragged past the given pointer height.
    Dragging { id: u64, pointer_y: i32 },
    /// The drag ended; the move event waits for the next frame.
    DroppedPending { from: usize, to: usize },
}

/// What the host reports to the drag state machine.
#[derive(Clone, Copy, PartialEq, Eq, Structural, Debug)]
pub enum DndInput {
    /// The pointer pressed on the item with this id at this height.
    Press { id: u64, y: i32 },
    /// The pointer moved to this height while dragging.
    MoveTo { y: i32 },
    /// The pointer was released with the dragged item between these indices.
    Release { from: usize, to: usize },
    /// A new frame began.
    Frame,
}

/// The next drag state and the emitted move event, if any: pressing starts a
/// drag, moving updates it, releasing parks the `(from, to)` move until the
/// next frame, which emits it exactly once and returns to idle. Anything
/// else leaves the state alone.
pub open spec fn dnd_step_spec(state: DndState, input: DndInput) -> (DndState, Option<(
    usize,
    usize,
)>) {
    match (state, input) {
        (DndState::Idle, DndInput::Press { id, y }) => (
            DndState::Dragging { id, pointer_y: y },
            None,
        ),
        (DndState::Dragging { id, pointer_y: _ }, DndInput::MoveTo { y }) => (
            DndState::Dragging { id, pointer_y: y },
            None,
        ),
        (DndState::Dragging { id: _, pointer_y: _ }, DndInput::Release { from, to }) => (
            DndState::DroppedPending { from, to },
            None,
        ),
        (DndState::DroppedPending { from, to }, DndInput::Frame) => (
            DndState::Idle,
            Some((from, to)),
        ),
        (s, _) => (s, None),
    }
}

/// Advance the drag state machine by one input. A completed drag emits its
/// single `(from, to)` move event on the frame after the release, then the
/// machine is idle again.
pub fn dnd_step(state: DndState, input: DndInput) -> (r: (DndState, Option<(usize, usize)>))
    ensures
        r == dnd_step_spec(state, input),
{
    match (state, input) {
        (DndState::Idle, DndInput::Press { id, y }) => (
            DndState::Dragging { id, pointer_y: y },
            None,
        ),
        (DndState::Dragging { id, pointer_y: _ }, DndInput::MoveTo { y }) => (
            DndState::Dragging { id, pointer_y: y },
            None,
        ),
        (DndState::Dragging { id: _, pointer_y: _ }, DndInput::Release { from, to }) => (
            DndState::DroppedPending { from, to },
            None,
        ),
        (DndState::DroppedPending { from, to }, DndInput::Frame) => (
            DndState::Idle,
            Some((from, to)),
        ),
        (s, _) => (s, None),
    }
}

/// How many of the given vertical centers lie above the pointer.
pub open spec fn count_above(centers: Seq<int>, y: int) -> int
    decreases centers.len(),
{
    if centers.len() == 0 {
        0
    } else {
        count_above(centers.drop_last(), y) + if centers.last() < y {
            1int
        } else {
            0int
        }
    }
}

proof fn lemma_count_above_take_succ(centers: Seq<int>, y: int, k: int)
    requires
        0 <= k < centers.len(),
    ensures
        count_above(centers.take(k + 1), y) == count_above(centers.take(k), y) + if centers[k]
            < y {
            1int
        } else {
            0int
        },
{
    assert(centers.take(k + 1).drop_last() =~= centers.take(k));
    assert(centers.take(k + 1).last() == centers[k]);
}

/// The slot where a dragged item would drop: items whose center lies above
/// the pointer keep their index, so the gap sits after exactly those.
pub fn insertion_slot(centers: &Vec<i32>, pointer_y: i32) -> (slot: usize)
    ensures
        slot as int == count_above(centers@.map_values(|c: i32| c as int), pointer_y as int),
        slot <= centers@.len(),
{
    let ghost cs = centers@.map_values(|c: i32| c as int);
    let n = centers.len();
    let mut slot: usize = 0;
    let mut i: usize = 0;
    while i < n
        invariant
            i <= n,
            n == centers@.len(),
            cs == centers@.map_values(|c: i32| c as int),
            slot as int == count_above(cs.take(i as int), pointer_y as int),
            slot <= i,
        decreases n - i,
    {
        proof {
            lemma_count_above_take_succ(cs, pointer_y as int, i as int);
        }
        if centers[i] < pointer_y {
            slot = slot + 1;
        }
        i = i + 1;
    }
    proof {
        assert(cs.take(n as int) =~= cs);
    }
    slot
}

/// Where the item at `index` is drawn while a gap is open at `slot`: items
/// before the gap keep their index, the rest move one down.
pub fn display_index(index: usize, slot: usize) -> (r: usize)
    requires
        index < usize::MAX,
    ensures
        index < slot ==> r == index,
        index >= slot ==> r == index + 1,
{
    if index < slot {
        index
    } else {
        index + 1
    }
}

} // verus!
