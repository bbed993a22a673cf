//! Alignments recorded from authored `align(..)` calls in context blocks.

use vstd::prelude::*;

verus! {

/// An alignment named in an authored `align(..)` call.
#[derive(Clone, Copy, Debug, PartialEq, Eq, Structural)]
pub enum RecordedAlignment {
    Left,
    Center,
    Right,
    Start,
    End,
}

/// The recorded alignment a name stands for.
pub open spec fn recorded_alignment_of(name: Seq<char>) -> Option<RecordedAlignment> {
    if name == "left"@ {
        Some(RecordedAlignment::Left)
    } else if name == "center"@ {
        Some(RecordedAlignment::Center)
    } else if name == "right"@ {
        Some(RecordedAlignment::Right)
    } else if name == "start"@ {
        Some(RecordedAlignment::Start)
    } else if name == "end"@ {
        Some(RecordedAlignment::End)
    } else {
        None
    }
}

/// The alignment of a name, if it names one.
pub fn named_recorded_alignment(name: &str) -> (a: Option<RecordedAlignment>)
    ensures
        a == recorded_alignment_of(name@),
{
    if crate::edit_script::str_eq(name, "left") {
        Some(RecordedAlignment::Left)
    } else if crate::edit_script::str_eq(name, "center") {
        Some(RecordedAlignment::Center)
    } else if crate::edit_script::str_eq(name, "right") {
        Some(RecordedAlignment::Right)
    } else if crate::edit_script::str_eq(name, "start") {
        Some(RecordedAlignment::Start)
    } else if crate::edit_script::str_eq(name, "end") {
        Some(RecordedAlignment::End)
    } else {
        None
    }
}

/// Merges one more alignment into what was found: the first one is kept,
/// and a different one afterwards is a conflict.
pub fn merge_recorded_alignment(found: &mut Option<RecordedAlignment>, alignment: RecordedAlignment) -> (consistent: bool)
    ensures
        match *old(found) {
            Some(previous) => consistent == (previous == alignment) && *final(found) == *old(found),
            None => consistent && *final(found) == Some(alignment),
        },
{
    match *found {
        Some(previous) => previous == alignment,
        None => {
            *found = Some(alignment);
            true
        },
    }
}

} // verus!
