//! The verification of a block as a walk over its ancestors, one fetched
//! block at a time. The walk says which block it wants next; whoever
//! drives it fetches that block from the storage and hands it over.

use vstd::prelude::*;
use crate::block::texts;
use crate::decode::decode_block;
use crate::digest::{content_hash, hash_bytes};
use crate::error::StoreError;
use crate::grammar::parse_block;
use crate::text::str_eq;

verus! {

/// The parents of one block that are being checked in turn.
pub struct Frame {
    parents: Vec<String>,
    next: usize,
    depth: usize,
}

/// What a `Frame` holds: the parents, the index of the one that is being
/// checked, and how many generations above them may still be visited.
pub struct FrameView {
    pub parents: Seq<Seq<char>>,
    pub next: nat,
    pub depth: nat,
}

impl View for Frame {
    type V = FrameView;

    closed spec fn view(&self) -> FrameView {
        FrameView {
            parents: texts(self.parents@),
            next: self.next as nat,
            depth: self.depth as nat,
        }
    }
}

/// What fetching a block from the storage gave.
#[derive(Debug, PartialEq, Eq)]
pub enum Fetched {
    /// The bytes stored under the name.
    Found(Vec<u8>),
    /// Nothing is stored under the name.
    Missing,
    /// The storage failed.
    Failed,
}

/// What a `Fetched` holds.
pub enum FetchedView {
    Found(Seq<u8>),
    Missing,
    Failed,
}

impl View for Fetched {
    type V = FetchedView;

    open spec fn view(&self) -> FetchedView {
        match self {
            Fetched::Found(bytes) => FetchedView::Found(bytes@),
            Fetched::Missing => FetchedView::Missing,
            Fetched::Failed => FetchedView::Failed,
        }
    }
}

/// A verification under way, or finished with its answer.
pub struct Walk {
    frames: Vec<Frame>,
    answer: Option<Result<bool, StoreError>>,
}

/// What a `Walk` holds: the frames from the block asked about up to the
/// one being checked, and the answer once there is one.
pub struct WalkView {
    pub frames: Seq<FrameView>,
    pub answer: Option<Result<bool, StoreError>>,
}

/// What a list of frames holds.
pub closed spec fn frame_views(frames: Seq<Frame>) -> Seq<FrameView> {
    Seq::new(frames.len(), |i: int| frames[i]@)
}

impl View for Walk {
    type V = WalkView;

    closed spec fn view(&self) -> WalkView {
        WalkView { frames: frame_views(self.frames@), answer: self.answer }
    }
}

impl WalkView {
    /// The walk is finished or wants a block: there is a frame, and every
    /// frame has a parent that is being checked.
    pub open spec fn wf(self) -> bool {
        self.answer is None ==> {
            &&& self.frames.len() >= 1
            &&& forall|j: int|
                0 <= j < self.frames.len() ==> (#[trigger] self.frames[j]).next
                    < self.frames[j].parents.len()
        }
    }

    /// The name of the block that the walk wants next.
    pub open spec fn wanted(self) -> Seq<char> {
        self.frames.last().parents[self.frames.last().next as int]
    }

    /// The walk that checks `name` and at most `max_depth` generations of
    /// its ancestors, before anything is fetched.
    pub open spec fn begin(name: Seq<char>, max_depth: nat) -> WalkView {
        WalkView {
            frames: seq![FrameView { parents: seq![name], next: 0, depth: max_depth }],
            answer: None,
        }
    }

    /// The finished walk with the answer `answer`.
    pub open spec fn finished(answer: Result<bool, StoreError>) -> WalkView {
        WalkView { frames: Seq::empty(), answer: Some(answer) }
    }

    /// The walk after the block wanted was found to hold: the next parent
    /// of the same block is wanted, or, where there is none, the block
    /// below holds too.
    pub open spec fn advance(frames: Seq<FrameView>) -> WalkView
        decreases frames.len(),
    {
        if frames.len() == 0 {
            WalkView::finished(Ok(true))
        } else {
            let top = frames.last();
            if top.next + 1 < top.parents.len() {
                WalkView {
                    frames: frames.drop_last().push(
                        FrameView { parents: top.parents, next: top.next + 1, depth: top.depth },
                    ),
                    answer: None,
                }
            } else {
                WalkView::advance(frames.drop_last())
            }
        }
    }

    /// The walk after `fetched` was handed over for the block wanted.
    /// Bytes that do not hash to the name wanted end the walk with
    /// `false`, and so does a parent that cannot be fetched; where the
    /// block asked about cannot be fetched, the walk fails.
    pub open spec fn step(self, fetched: FetchedView) -> WalkView {
        let top = self.frames.last();
        let at_root = self.frames.len() == 1;
        match fetched {
            FetchedView::Missing => WalkView::finished(
                if at_root {
                    Err(StoreError::NotFound)
                } else {
                    Ok(false)
                },
            ),
            FetchedView::Failed => WalkView::finished(
                if at_root {
                    Err(StoreError::IoError)
                } else {
                    Ok(false)
                },
            ),
            FetchedView::Found(bytes) => if content_hash(bytes) != self.wanted() {
                WalkView::finished(Ok(false))
            } else {
                match parse_block(bytes) {
                    None => WalkView::finished(Err(StoreError::CorruptEncoding)),
                    Some(b) => if b.parents.len() == 0 {
                        WalkView::advance(self.frames)
                    } else if top.depth == 0 {
                        WalkView::finished(Err(StoreError::DepthExceeded))
                    } else {
                        WalkView {
                            frames: self.frames.push(
                                FrameView {
                                    parents: b.parents,
                                    next: 0,
                                    depth: (top.depth - 1) as nat,
                                },
                            ),
                            answer: None,
                        }
                    },
                }
            },
        }
    }
}

/// Advancing keeps a walk well formed.
pub proof fn lemma_advance_wf(frames: Seq<FrameView>)
    requires
        forall|j: int| 0 <= j < frames.len() ==> (#[trigger] frames[j]).next < frames[j].parents.len(),
    ensures
        WalkView::advance(frames).wf(),
    decreases frames.len(),
{
    if frames.len() > 0 {
        let top = frames.last();
        if top.next + 1 < top.parents.len() {
        } else {
            lemma_advance_wf(frames.drop_last());
        }
    }
}

/// A step keeps a walk well formed.
pub proof fn lemma_step_wf(w: WalkView, fetched: FetchedView)
    requires
        w.wf(),
        w.answer is None,
    ensures
        w.step(fetched).wf(),
{
    lemma_advance_wf(w.frames);
}

impl Walk {
    /// Starts the verification of the block `name`, which visits at most
    /// `max_depth` generations of its ancestors.
    pub fn begin(name: String, max_depth: usize) -> (walk: Walk)
        ensures
            walk@ == WalkView::begin(name@, max_depth as nat),
            walk@.wf(),
    {
        let mut parents: Vec<String> = Vec::new();
        parents.push(name);
        let mut frames: Vec<Frame> = Vec::new();
        frames.push(Frame { parents, next: 0, depth: max_depth });
        let walk = Walk { frames, answer: None };
        proof {
            assert(walk@.frames =~= WalkView::begin(name@, max_depth as nat).frames) by {
                assert(walk@.frames[0].parents =~= seq![name@]);
            }
        }
        walk
    }

    /// The answer, once the walk is finished.
    pub fn answer(&self) -> (answer: Option<Result<bool, StoreError>>)
        ensures
            answer == self@.answer,
    {
        self.answer
    }

    /// The name of the block to fetch next, or nothing where the walk is
    /// finished.
    pub fn wanted(&self) -> (name: Option<String>)
        requires
            self@.wf(),
        ensures
            match name {
                Some(n) => self@.answer is None && n@ == self@.wanted(),
                None => self@.answer is Some,
            },
    {
        if self.answer.is_some() {
            return None;
        }
        let n = self.frames.len();
        assert(self@.frames[n - 1] == self.frames[n - 1]@);
        assert(self@.frames[n - 1].next < self@.frames[n - 1].parents.len());
        let top = &self.frames[n - 1];
        Some(top.parents[top.next].clone())
    }

    /// Ends the walk with `answer`.
    fn finish(&mut self, answer: Result<bool, StoreError>)
        ensures
            final(self)@ == WalkView::finished(answer),
    {
        self.frames = Vec::new();
        self.answer = Some(answer);
        assert(self@.frames =~= Seq::empty());
    }

    /// Goes on after the block wanted was found to hold.
    fn advance(&mut self)
        requires
            old(self)@.wf(),
            old(self)@.answer is None,
        ensures
            final(self)@ == WalkView::advance(old(self)@.frames),
    {
        loop
            invariant
                self.answer is None,
                forall|j: int|
                    0 <= j < self@.frames.len() ==> (#[trigger] self@.frames[j]).next
                        < self@.frames[j].parents.len(),
                WalkView::advance(self@.frames) == WalkView::advance(old(self)@.frames),
            decreases self.frames.len(),
        {
            let ghost before = self@.frames;
            match self.frames.pop() {
                None => {
                    assert(before =~= Seq::empty());
                    self.finish(Ok(true));
                    return;
                },
                Some(top) => {
                    assert(top@ == before.last());
                    assert(self@.frames =~= before.drop_last());
                    assert(before.last().next < before.last().parents.len());
                    assert(top@.next == top.next && top@.parents.len() == top.parents.len());
                    if top.next + 1 < top.parents.len() {
                        let frame = Frame {
                            parents: top.parents,
                            next: top.next + 1,
                            depth: top.depth,
                        };
                        self.frames.push(frame);
                        assert(self@.frames =~= before.drop_last().push(
                            FrameView {
                                parents: before.last().parents,
                                next: before.last().next + 1,
                                depth: before.last().depth,
                            },
                        ));
                        return;
                    }
                    assert forall|j: int| 0 <= j < self@.frames.len() implies (
                    #[trigger] self@.frames[j]).next < self@.frames[j].parents.len() by {
                        assert(self@.frames[j] == before[j]);
                    }
                },
            }
        }
    }

    /// Takes what fetching the block wanted gave, and goes on to the next
    /// block or to the answer.
    pub fn supply(&mut self, fetched: Fetched)
        requires
            old(self)@.wf(),
            old(self)@.answer is None,
        ensures
            final(self)@ == old(self)@.step(fetched@),
            final(self)@.wf(),
    {
        proof {
            lemma_step_wf(self@, fetched@);
        }
        let n = self.frames.len();
        let at_root = n == 1;
        assert(self@.frames[n - 1] == self.frames[n - 1]@);
        assert(self@.frames[n - 1].next < self@.frames[n - 1].parents.len());
        let bytes = match fetched {
            Fetched::Found(bytes) => bytes,
            Fetched::Missing => {
                self.finish(
                    if at_root {
                        Err(StoreError::NotFound)
                    } else {
                        Ok(false)
                    },
                );
                return;
            },
            Fetched::Failed => {
                self.finish(
                    if at_root {
                        Err(StoreError::IoError)
                    } else {
                        Ok(false)
                    },
                );
                return;
            },
        };
        let hash = hash_bytes(bytes.as_slice());
        let depth = self.frames[n - 1].depth;
        let matches = {
            let top = &self.frames[n - 1];
            str_eq(hash.as_str(), top.parents[top.next].as_str())
        };
        if !matches {
            self.finish(Ok(false));
            return;
        }
        match decode_block(bytes.as_slice()) {
            Err(_) => {
                self.finish(Err(StoreError::CorruptEncoding));
            },
            Ok(block) => {
                let parents = block.into_parents();
                if parents.len() == 0 {
                    self.advance();
                } else if depth == 0 {
                    self.finish(Err(StoreError::DepthExceeded));
                } else {
                    let ghost before = self@.frames;
                    let frame = Frame { parents, next: 0, depth: depth - 1 };
                    self.frames.push(frame);
                    assert(self@.frames =~= before.push(
                        FrameView {
                            parents: texts(parents@),
                            next: 0,
                            depth: (depth - 1) as nat,
                        },
                    ));
                }
            },
        }
    }
}

} // verus!
