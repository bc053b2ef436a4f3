//! Extracting an archive held in memory.

use crate::archive::extract;
use crate::archive::extract::{Action, ActionView, ExtractionView, Extractor};
use crate::archive::{ArchiveError, ExtractionLimits};
use vstd::prelude::*;
use vstd::slice::slice_subrange;

verus! {

/// What an extraction came to: the actions, in order, and how it ended. An error
/// does not undo the actions before it.
#[derive(Debug)]
pub struct Extraction {
    pub actions: Vec<Action>,
    pub result: Result<(), ArchiveError>,
}

/// Actions, as values.
pub open spec fn actions_of(actions: Seq<Action>) -> Seq<ActionView> {
    actions.map_values(|action: Action| action@)
}

impl View for Extraction {
    type V = ExtractionView;

    open spec fn view(&self) -> ExtractionView {
        ExtractionView {
            actions: actions_of(self.actions@),
            error: match self.result {
                Ok(_) => None,
                Err(error) => Some(error@),
            },
        }
    }
}

/// `before` comes first.
pub open spec fn after(before: Seq<ActionView>, rest: ExtractionView) -> ExtractionView {
    ExtractionView { actions: before + rest.actions, error: rest.error }
}

/// Extracts an archive held in memory, with the default limits.
pub fn extract_archive(data: &[u8]) -> (extraction: Extraction)
    ensures
        extraction@ == extract::extraction(data@, ExtractionLimits::spec_default()),
{
    extract_archive_with_limits(data, ExtractionLimits::default())
}

/// Extracts an archive held in memory.
pub fn extract_archive_with_limits(data: &[u8], limits: ExtractionLimits) -> (extraction:
    Extraction)
    ensures
        extraction@ == extract::extraction(data@, limits),
{
    let mut extractor = Extractor::new(limits);
    let mut actions: Vec<Action> = Vec::new();
    let mut position: usize = 0;
    let ghost whole = extract::extraction(data@, limits);
    proof {
        assert(data@.skip(0) =~= data@);
        assert(actions_of(actions@) =~= Seq::<ActionView>::empty());
        assert(after(Seq::empty(), whole) =~= whole);
    }
    while !extractor.is_done()
        invariant
            extractor.wf(),
            position <= data.len(),
            whole == extract::extraction(data@, limits),
            whole == after(actions_of(actions@), extractor.outcome(data@.skip(position as int))),
        decreases extractor.entries_left(), extractor.steps_left(),
    {
        let ghost left = data@.skip(position as int);
        let ghost before = actions_of(actions@);
        let want: usize = extractor.wanted();
        let available: usize = data.len() - position;
        let len: usize = if available < want {
            available
        } else {
            want
        };
        let piece = slice_subrange(data, position, position + len);
        proof {
            assert(piece@ =~= left.take(len as int));
        }
        match extractor.feed(piece) {
            Ok(action) => {
                position = position + len;
                proof {
                    assert(left =~= piece@ + data@.skip(position as int));
                }
                if let Some(action) = action {
                    let ghost rest = extractor.outcome(data@.skip(position as int));
                    let ghost done = action@;
                    actions.push(action);
                    proof {
                        assert(actions_of(actions@) =~= before + seq![done]);
                        assert(after(before, extract::first(done, rest)) =~= after(
                            actions_of(actions@),
                            rest,
                        ));
                    }
                }
            },
            Err(error) => {
                let extraction = Extraction { actions, result: Err(error) };
                proof {
                    if len == want {
                        assert(left =~= piece@ + data@.skip(position + len));
                    } else {
                        assert(left =~= piece@);
                    }
                    assert(extraction@ =~= whole);
                }
                return extraction;
            },
        }
    }
    let extraction = Extraction { actions, result: Ok(()) };
    proof {
        assert(extraction@ =~= whole);
    }
    extraction
}

} // verus!
