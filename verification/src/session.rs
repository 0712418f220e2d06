//! The session logic: the application state and the dispatch of one
//! keyboard event of the interactive loop.

use vstd::prelude::*;
use crate::data::{in_range, init_data, lemma_in_range_permutation};
use crate::sink::FrameSink;
use crate::sort::{max_frames, min_frames, quicksort, sorted};

verus! {

/// The state the interactive loop owns: the current dataset and whether a
/// quit was requested.
pub struct App {
    pub data: Vec<u64>,
    pub should_quit: bool,
}

/// What one bounded-timeout poll of the keyboard reports: a quit keypress,
/// a regenerate keypress, or anything else (another key, or no key at all).
pub enum InputEvent {
    Quit,
    Regenerate,
    Other,
}

/// Run the full sort animation over the application's dataset.
pub fn visualize_sort<S: FrameSink>(app: &mut App, sink: &mut S)
    requires
        old(app).data.len() >= 1,
    ensures
        sorted(final(app).data@),
        final(app).data@.to_multiset() == old(app).data@.to_multiset(),
        final(app).data@.len() == old(app).data@.len(),
        final(app).should_quit == old(app).should_quit,
        final(sink).frames().len() >= old(sink).frames().len() + min_frames(old(app).data@.len()),
        final(sink).frames().len() <= old(sink).frames().len() + max_frames(old(app).data@.len()),
        forall|k: int|
            0 <= k < old(sink).frames().len() ==> final(sink).frames()[k] == old(
                sink,
            ).frames()[k],
        final(sink).frames()[old(sink).frames().len() as int] == old(app).data@,
{
    quicksort(&mut app.data, sink);
}

/// Dispatch one polled keyboard event: quit marks the session as over and
/// draws nothing further; regenerate replaces the dataset with a fresh one
/// sized to the current terminal width and animates a full sort of it;
/// anything else changes nothing.
pub fn update<S: FrameSink>(app: &mut App, sink: &mut S, event: InputEvent, width: u16)
    requires
        event is Regenerate ==> width >= 3,
    ensures
        event is Quit ==> (final(app).should_quit && final(app).data@ == old(app).data@ && final(sink).frames() == old(sink).frames()),
        event is Other ==> (final(app).should_quit == old(app).should_quit && final(app).data@
            == old(app).data@ && final(sink).frames() == old(sink).frames()),
        event is Regenerate ==> (final(app).should_quit == old(app).should_quit && final(app).data@.len() == width - 2 && sorted(final(app).data@) && in_range(final(app).data@)
            && final(sink).frames().len() >= old(sink).frames().len() + min_frames(
            (width - 2) as nat,
        ) && final(sink).frames().len() <= old(sink).frames().len() + max_frames(
            (width - 2) as nat,
        )),
        forall|k: int|
            0 <= k < old(sink).frames().len() ==> final(sink).frames()[k] == old(
                sink,
            ).frames()[k],
{
    match event {
        InputEvent::Quit => {
            app.should_quit = true;
        },
        InputEvent::Regenerate => {
            app.data = init_data(width);
            let ghost fresh = app.data@;
            visualize_sort(app, sink);
            proof {
                lemma_in_range_permutation(fresh, app.data@);
            }
        },
        InputEvent::Other => {},
    }
}

} // verus!
