use vstd::prelude::*;
use crate::types::NodeType;
use crate::interner::{Interner, interned, intern_id, interner_capacity};
use crate::events::Event;
use crate::text::{chars_of, push_str, string_from_chars};

verus! {

/// The name of the symbol the extractor reports for a file.
pub open spec fn symbol_name(file_path: Seq<char>) -> Seq<char> {
    file_path + "::mock_func"@
}

/// The events extraction reports for a file, given the interner before it:
/// a clear of the file, then one function node recorded under the file.
pub open spec fn semantic_events(strings: Seq<Seq<char>>, file_path: Seq<char>) -> Seq<Event> {
    let file_id = intern_id(strings, file_path) as u32;
    let mid = interned(strings, file_path);
    let symbol_id = intern_id(mid, symbol_name(file_path)) as u32;
    seq![
        Event::ClearFile { file_id },
        Event::AddNode { id: symbol_id, kind: NodeType::Function, file_id },
    ]
}

/// Reports the changes a file brings: first a clear of everything recorded
/// for it, then its symbols (one function per file).
pub fn extract_semantic_events(file_path: &str, _code: &str, interner: &mut Interner) -> (events: Vec<Event>)
    requires
        old(interner).wf(),
        old(interner)@.contains(file_path@) || old(interner)@.len() < interner_capacity(),
        interned(old(interner)@, file_path@).contains(symbol_name(file_path@))
            || interned(old(interner)@, file_path@).len() < interner_capacity(),
    ensures
        final(interner).wf(),
        final(interner)@ == interned(interned(old(interner)@, file_path@), symbol_name(file_path@)),
        events@ == semantic_events(old(interner)@, file_path@),
{
    let mut events: Vec<Event> = Vec::new();
    let file_id = interner.intern(file_path);
    events.push(Event::ClearFile { file_id });
    let mut name = chars_of(file_path);
    push_str(&mut name, "::mock_func");
    let symbol = string_from_chars(&name);
    let symbol_id = interner.intern(symbol.as_str());
    events.push(Event::AddNode { id: symbol_id, kind: NodeType::Function, file_id });
    proof {
        assert(events@ =~= semantic_events(old(interner)@, file_path@));
    }
    events
}

} // verus!
