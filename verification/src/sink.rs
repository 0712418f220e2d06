//! The frame-rendering capability the sort engine draws through: a sink
//! receives one read-only snapshot of the dataset per animation step.

use vstd::prelude::*;

verus! {

/// A consumer of animation frames. The ghost view `frames` is the sequence
/// of snapshots handed to `render` so far, oldest first.
pub trait FrameSink {
    open spec fn frames(&self) -> Seq<Seq<u64>> {
        Seq::<Seq<u64>>::empty()
    }

    /// Draw one frame showing the current state of the data.
    fn render(&mut self, data: &Vec<u64>)
        ensures
            final(self).frames() == old(self).frames().push(data@),
    ;
}

/// A sink that keeps every snapshot it is handed, for headless runs.
pub struct RecordingSink {
    pub frames: Vec<Vec<u64>>,
}

impl RecordingSink {
    /// A sink that has seen no frames yet.
    pub fn new() -> (s: RecordingSink)
        ensures
            s.frames() == Seq::<Seq<u64>>::empty(),
    {
        let s = RecordingSink { frames: Vec::new() };
        proof {
            assert(s.frames() =~= Seq::<Seq<u64>>::empty());
        }
        s
    }
}

impl FrameSink for RecordingSink {
    open spec fn frames(&self) -> Seq<Seq<u64>> {
        self.frames@.map_values(|v: Vec<u64>| v@)
    }

    fn render(&mut self, data: &Vec<u64>) {
        let mut snapshot: Vec<u64> = Vec::new();
        let mut k: usize = 0;
        while k < data.len()
            invariant
                k <= data@.len(),
                snapshot@ == data@.subrange(0, k as int),
            decreases data@.len() - k,
        {
            snapshot.push(data[k]);
            proof {
                assert(snapshot@ =~= data@.subrange(0, k + 1));
            }
            k = k + 1;
        }
        proof {
            assert(snapshot@ =~= data@);
        }
        self.frames.push(snapshot);
        proof {
            assert(self.frames() =~= old(self).frames().push(data@));
        }
    }
}

} // verus!
