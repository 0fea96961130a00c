use vstd::prelude::*;
use crate::directory::{Directory, DirectoryView};
use crate::entry::{
    entries_view, game_records, game_records_of, records_view, Entry, EntryView, NewGame, NewGameView,
};

verus! {

/// One collection being synchronized: its entries, and the index from which
/// its nested collections are still to be visited.
pub struct Frame {
    entries: Vec<Entry>,
    next: usize,
}

/// A depth-first synchronization of a games tree with the store. Each
/// collection's entries are resolved once; its nested collections are then
/// synchronized in order, and last its own games are stored in one batch.
pub struct Sync {
    frames: Vec<Frame>,
}

/// What the caller is to do next.
pub enum Step {
    /// Resolve this collection's entries and hand them to `Sync::resolved`.
    Resolve(Directory),
    /// Store these records in one call and then call `Sync::upserted`.
    Upsert(Vec<NewGame>),
    /// The whole tree has been synchronized.
    Done,
}

pub struct FrameView {
    pub entries: Seq<EntryView>,
    pub next: int,
}

pub enum StepView {
    Resolve(DirectoryView),
    Upsert(Seq<NewGameView>),
    Done,
}

impl View for Frame {
    type V = FrameView;

    closed spec fn view(&self) -> FrameView {
        FrameView { entries: entries_view(self.entries@), next: self.next as int }
    }
}

impl View for Sync {
    type V = Seq<FrameView>;

    closed spec fn view(&self) -> Seq<FrameView> {
        self.frames@.map_values(|f: Frame| f@)
    }
}

impl View for Step {
    type V = StepView;

    open spec fn view(&self) -> StepView {
        match self {
            Step::Resolve(d) => StepView::Resolve(d@),
            Step::Upsert(b) => StepView::Upsert(records_view(b@)),
            Step::Done => StepView::Done,
        }
    }
}

/// The index of the first nested collection in `s` at or after `from`, or
/// the length of `s` where there is none.
pub open spec fn next_dir(s: Seq<EntryView>, from: int) -> int
    decreases s.len() - from,
{
    if from >= s.len() {
        s.len() as int
    } else if s[from] is Directory {
        from
    } else {
        next_dir(s, from + 1)
    }
}

/// Every frame's cursor lies within its entries.
pub open spec fn frames_wf(fs: Seq<FrameView>) -> bool {
    forall|k: int| 0 <= k < fs.len() ==> 0 <= #[trigger] fs[k].next <= fs[k].entries.len()
}

/// How the innermost collection moves on: to its next nested collection,
/// which is then resolved, or, when none is left, to storing its own games,
/// upon which it is done.
pub open spec fn advanced(fs: Seq<FrameView>, r: StepView, after: Seq<FrameView>) -> bool {
    let top = fs.last();
    let j = next_dir(top.entries, top.next);
    if j < top.entries.len() {
        &&& r == StepView::Resolve(top.entries[j]->Directory_0)
        &&& after == fs.drop_last().push(FrameView { entries: top.entries, next: j + 1 })
    } else {
        &&& r == StepView::Upsert(game_records_of(top.entries))
        &&& after == fs.drop_last()
    }
}

proof fn lemma_next_dir_bounds(s: Seq<EntryView>, from: int)
    requires
        0 <= from <= s.len(),
    ensures
        from <= next_dir(s, from) <= s.len(),
        next_dir(s, from) < s.len() ==> s[next_dir(s, from)] is Directory,
    decreases s.len() - from,
{
    if from < s.len() && !(s[from] is Directory) {
        lemma_next_dir_bounds(s, from + 1);
    }
}

fn dir_at(entries: &Vec<Entry>, i: usize) -> (r: Option<Directory>)
    requires
        i < entries@.len(),
    ensures
        r is Some <==> entries@[i as int] is Directory,
        r is Some ==> r->0@ == entries_view(entries@)[i as int]->Directory_0,
{
    match &entries[i] {
        Entry::Directory(d) => Some(d.duplicate()),
        _ => None,
    }
}

impl Sync {
    pub open spec fn wf(&self) -> bool {
        frames_wf(self@)
    }

    fn advance(&mut self) -> (r: Step)
        requires
            old(self).wf(),
            old(self)@.len() > 0,
        ensures
            final(self).wf(),
            advanced(old(self)@, r@, final(self)@),
    {
        let ghost fs = self@;
        let mut top = self.frames.pop().unwrap();
        assert(self@ =~= fs.drop_last());
        assert(fs.last() == top@);
        let ghost ev = entries_view(top.entries@);
        assert(0 <= fs[fs.len() - 1].next);
        let len: usize = top.entries.len();
        let ghost start = top.next as int;
        let mut i: usize = top.next;
        while i < len
            invariant
                len == top.entries@.len(),
                ev == entries_view(top.entries@),
                fs.last() == top@,
                fs == old(self)@,
                start == top.next,
                frames_wf(fs),
                fs.len() > 0,
                start <= i <= len,
                next_dir(ev, start) == next_dir(ev, i as int),
                self@ == fs.drop_last(),
            decreases len - i,
        {
            match dir_at(&top.entries, i) {
                Some(d) => {
                    assert(ev[i as int] is Directory);
                    assert(next_dir(ev, i as int) == i);
                    assert(ev.len() == len);
                    assert(fs.last().entries == ev);
                    assert(fs.last().next == start);
                    assert(d@ == ev[i as int]->Directory_0);
                    top.next = i + 1;
                    self.frames.push(top);
                    let ghost nf = FrameView { entries: ev, next: i + 1 };
                    assert(self@ =~= fs.drop_last().push(nf));
                    assert forall|k: int| 0 <= k < self@.len() implies 0 <= #[trigger] self@[k].next
                        <= self@[k].entries.len() by {
                        if k < fs.len() - 1 {
                            assert(self@[k] == fs[k]);
                        }
                    }
                    let r = Step::Resolve(d);
                    return r;
                },
                None => {},
            }
            i += 1;
        }
        assert forall|k: int| 0 <= k < self@.len() implies 0 <= #[trigger] self@[k].next
            <= self@[k].entries.len() by {
            assert(self@[k] == fs[k]);
        }
        let batch = game_records(&top.entries);
        Step::Upsert(batch)
    }

    /// Resolving is done for the collection that the last `Resolve` named:
    /// its nested collections come next, then its own games.
    pub fn resolved(&mut self, entries: Vec<Entry>) -> (r: Step)
        requires
            old(self).wf(),
        ensures
            final(self).wf(),
            advanced(old(self)@.push(FrameView { entries: entries_view(entries@), next: 0 }), r@, final(self)@),
    {
        let ghost fs = self@;
        self.frames.push(Frame { entries, next: 0 });
        assert(self@ =~= fs.push(FrameView { entries: entries_view(entries@), next: 0 }));
        self.advance()
    }

    /// The last batch has been stored: the collection it came from is done,
    /// and the one that holds it, if any, moves on.
    pub fn upserted(&mut self) -> (r: Step)
        requires
            old(self).wf(),
        ensures
            final(self).wf(),
            old(self)@.len() == 0 ==> r@ == StepView::Done && final(self)@ == old(self)@,
            old(self)@.len() > 0 ==> advanced(old(self)@, r@, final(self)@),
    {
        if self.frames.len() == 0 {
            Step::Done
        } else {
            self.advance()
        }
    }
}

impl Directory {
    /// Starts synchronizing the tree rooted at this collection with the store:
    /// the first step resolves this collection.
    pub fn populate_db(&self) -> (r: (Sync, Step))
        ensures
            r.0.wf(),
            r.0@.len() == 0,
            r.1@ == StepView::Resolve(self@),
    {
        (Sync { frames: Vec::new() }, Step::Resolve(self.duplicate()))
    }
}

/// Once no nested collection is left to visit in the innermost collection,
/// the next step stores exactly that collection's own games, none of a
/// nested one, and the collection is done.
pub proof fn lemma_level_stores_own_games(fs: Seq<FrameView>, r: StepView, after: Seq<FrameView>)
    requires
        frames_wf(fs),
        fs.len() > 0,
        forall|k: int| fs.last().next <= k < fs.last().entries.len() ==> !(fs.last().entries[k] is Directory),
        advanced(fs, r, after),
    ensures
        r == StepView::Upsert(game_records_of(fs.last().entries)),
        after == fs.drop_last(),
{
    let top = fs.last();
    assert(0 <= fs[fs.len() - 1].next);
    lemma_next_dir_bounds(top.entries, top.next);
}

} // verus!
