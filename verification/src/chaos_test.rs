use vstd::prelude::*;
use crate::types::{NodeType, StringId};
use crate::events::Event;

verus! {

/// Number of node additions in a stress run.
pub open spec fn chaos_mutations() -> nat {
    100_000
}

/// The events of a stress run over the first `n` steps: step `i` adds node
/// `i` to the file, and every hundredth step (from step 0) then clears it.
pub open spec fn chaos_sequence(file_id: StringId, n: nat) -> Seq<Event>
    decreases n,
{
    if n == 0 {
        Seq::empty()
    } else {
        let i = (n - 1) as nat;
        let prev = chaos_sequence(file_id, i).push(Event::AddNode { id: i as u32, kind: NodeType::Function, file_id });
        if i % 100 == 0 { prev.push(Event::ClearFile { file_id }) } else { prev }
    }
}

/// The events a stress run sends, in order.
pub fn chaos_events(file_id: StringId) -> (events: Vec<Event>)
    ensures
        events@ == chaos_sequence(file_id, chaos_mutations()),
{
    let mut events: Vec<Event> = Vec::new();
    let mut i: u32 = 0;
    while i < 100_000
        invariant
            i <= 100_000,
            events@ == chaos_sequence(file_id, i as nat),
        decreases 100_000 - i,
    {
        events.push(Event::AddNode { id: i, kind: NodeType::Function, file_id });
        if i % 100 == 0 {
            events.push(Event::ClearFile { file_id });
        }
        i += 1;
    }
    events
}

} // verus!
