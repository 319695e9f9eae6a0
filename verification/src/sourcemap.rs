//! The position map: `.luaux` offsets ↔ generated `.luau` offsets.
//!
//! A list of **verbatim runs**. The compiler copies everything outside a LuauX
//! region byte for byte and captures expressions without parsing them, so every
//! position worth forwarding lies inside a run — the things that do not map are
//! precisely the things this server answers itself.
//!
//! Generated text — `create(`, `Text = `, the `__luaux_read` wrapper — has no
//! source counterpart. Both directions return `None` there, and callers must
//! handle that rather than snapping to the nearest run. A wrong position sends
//! people to code they did not write.

use vstd::prelude::*;

use crate::text::{self, get, length, same};

verus! {

/// One stretch of text that appears identically in both files.
#[derive(Debug, Clone, Copy, PartialEq, Eq, Structural)]
pub struct Run {
    pub source: usize,
    pub output: usize,
    pub length: usize,
}

/// Which of the two files an offset counts in.
#[derive(Debug, Clone, Copy, PartialEq, Eq, Structural)]
pub enum Side {
    Source,
    Output,
}

impl Side {
    pub open spec fn other(self) -> Side {
        match self {
            Side::Source => Side::Output,
            Side::Output => Side::Source,
        }
    }
}

impl Run {
    /// Where the run begins in one of the files.
    pub open spec fn start(self, side: Side) -> int {
        match side {
            Side::Source => self.source as int,
            Side::Output => self.output as int,
        }
    }

    /// Where it ends there, one past its last byte.
    pub open spec fn end(self, side: Side) -> int {
        self.start(side) + self.length
    }

    /// Whether `offset` is one of the bytes of the run.
    pub open spec fn holds(self, side: Side, offset: int) -> bool {
        self.start(side) <= offset < self.end(side)
    }

    /// Whether `offset` is one past a byte of the run.
    pub open spec fn closes(self, side: Side, offset: int) -> bool {
        self.start(side) < offset <= self.end(side)
    }

    /// The place in the other file that matches `offset` in this one.
    pub open spec fn across(self, side: Side, offset: int) -> int {
        self.start(side.other()) + (offset - self.start(side))
    }

    /// Whether both files really hold the same bytes over the run.
    pub open spec fn verbatim(self, source: Seq<char>, output: Seq<char>) -> bool {
        &&& text::cuttable(source, self.source as int, self.end(Side::Source))
        &&& text::cuttable(output, self.output as int, self.end(Side::Output))
        &&& text::bytes(source).subrange(self.source as int, self.end(Side::Source)) == text::bytes(
            output,
        ).subrange(self.output as int, self.end(Side::Output))
    }
}

/// Whether no run is empty, and each ends, in both files, before the next begins.
pub open spec fn ordered(runs: Seq<Run>) -> bool {
    &&& forall|i: int|
        #![trigger runs[i]]
        0 <= i < runs.len() ==> {
            &&& runs[i].length > 0
            &&& runs[i].source + runs[i].length <= usize::MAX
            &&& runs[i].output + runs[i].length <= usize::MAX
        }
    &&& forall|i: int, j: int|
        #![trigger runs[i], runs[j]]
        0 <= i < j < runs.len() ==> {
            &&& runs[i].source + runs[i].length <= runs[j].source
            &&& runs[i].output + runs[i].length <= runs[j].output
        }
}

/// Which run holds `offset`.
pub open spec fn holder(runs: Seq<Run>, side: Side, offset: int) -> Option<Run> {
    if exists|i: int| 0 <= i < runs.len() && (#[trigger] runs[i]).holds(side, offset) {
        let i = choose|i: int| 0 <= i < runs.len() && (#[trigger] runs[i]).holds(side, offset);
        Some(runs[i])
    } else {
        None
    }
}

/// Which run `offset` closes an edge of.
pub open spec fn closer(runs: Seq<Run>, side: Side, offset: int) -> Option<Run> {
    if exists|i: int| 0 <= i < runs.len() && (#[trigger] runs[i]).closes(side, offset) {
        let i = choose|i: int| 0 <= i < runs.len() && (#[trigger] runs[i]).closes(side, offset);
        Some(runs[i])
    } else {
        None
    }
}

/// Where an offset in one file stands in the other.
pub open spec fn mapped(runs: Seq<Run>, side: Side, offset: int) -> Option<int> {
    match holder(runs, side, offset) {
        Some(run) => Some(run.across(side, offset)),
        None => None,
    }
}

/// Where the closing edge of a range in one file stands in the other.
pub open spec fn mapped_end(runs: Seq<Run>, side: Side, offset: int) -> Option<int> {
    match closer(runs, side, offset) {
        Some(run) => Some(run.across(side, offset)),
        None => None,
    }
}

/// Where a range in one file stands in the other.
///
/// A caret stands wherever its offset does, or, just past a run, where the run
/// ends. Any other range must lie within the run that holds its start.
pub open spec fn mapped_range(runs: Seq<Run>, side: Side, start: int, end: int) -> Option<
    (int, int),
> {
    if start == end {
        match mapped(runs, side, start) {
            Some(at) => Some((at, at)),
            None => match mapped_end(runs, side, start) {
                Some(at) => Some((at, at)),
                None => None,
            },
        }
    } else {
        match holder(runs, side, start) {
            Some(run) => if run.start(side) <= end <= run.end(side) {
                Some((run.across(side, start), run.across(side, end)))
            } else {
                None
            },
            None => None,
        }
    }
}

#[derive(Debug, Clone)]
pub struct SourceMap {
    /// Sorted by `source`, and — because emission follows source order — by
    /// `output` as well. [`SourceMap::push`] is what keeps both true.
    runs: Vec<Run>,
    /// Constructs the builder could not place. A gap costs a feature at that
    /// position and nothing says so — so the count is kept and can be asserted
    /// on.
    lost: usize,
    /// Why the map stopped early, if it did. Distinct from `lost`: this is
    /// coverage abandoned wholesale rather than one construct at a time.
    abandoned: Option<&'static str>,
}

impl View for SourceMap {
    type V = Seq<Run>;

    closed spec fn view(&self) -> Seq<Run> {
        self.runs@
    }
}

impl SourceMap {
    /// What every map keeps: no run is empty, and none goes backwards.
    pub open spec fn wf(self) -> bool {
        ordered(self@)
    }

    /// Whether every run is verbatim in these two texts.
    pub open spec fn verbatim(self, source: Seq<char>, output: Seq<char>) -> bool {
        forall|i: int| 0 <= i < self@.len() ==> (#[trigger] self@[i]).verbatim(source, output)
    }

    pub closed spec fn lost_count(self) -> nat {
        self.lost as nat
    }

    pub closed spec fn abandoned_for(self) -> Option<Seq<char>> {
        match self.abandoned {
            Some(reason) => Some(reason@),
            None => None,
        }
    }

    /// A map with no runs.
    pub fn new() -> (r: Self)
        ensures
            r.wf(),
            r@ == Seq::<Run>::empty(),
            r.lost_count() == 0,
            r.abandoned_for() is None,
    {
        SourceMap { runs: Vec::new(), lost: 0, abandoned: None }
    }

    pub fn runs(&self) -> (r: &[Run])
        ensures
            r@ == self@,
    {
        self.runs.as_slice()
    }

    /// How many constructs could not be placed.
    pub fn lost(&self) -> (r: usize)
        ensures
            r == self.lost_count(),
    {
        self.lost
    }

    /// Counts one more construct that could not be placed. The count stays
    /// where it is once it can go no higher.
    pub fn note_lost(&mut self)
        ensures
            final(self)@ == old(self)@,
            final(self).lost_count() == if old(self).lost_count() == usize::MAX {
                old(self).lost_count()
            } else {
                old(self).lost_count() + 1
            },
            final(self).abandoned_for() == old(self).abandoned_for(),
    {
        if self.lost < usize::MAX {
            self.lost = self.lost + 1;
        }
    }

    /// Why coverage was abandoned wholesale, if it was.
    pub fn abandoned(&self) -> (r: Option<&'static str>)
        ensures
            match (r, self.abandoned_for()) {
                (Some(s), Some(t)) => s@ == t,
                (None, None) => true,
                _ => false,
            },
    {
        self.abandoned
    }

    /// Records why coverage ends here. The first reason stands.
    pub fn abandon(&mut self, reason: &'static str)
        ensures
            final(self)@ == old(self)@,
            final(self).lost_count() == old(self).lost_count(),
            final(self).abandoned_for() == match old(self).abandoned_for() {
                Some(first) => Some(first),
                None => Some(reason@),
            },
    {
        if self.abandoned.is_none() {
            self.abandoned = Some(reason);
        }
    }

    pub fn is_empty(&self) -> (r: bool)
        ensures
            r == (self@.len() == 0),
    {
        self.runs.len() == 0
    }

    /// Records a run, if it is genuinely verbatim and does not go backwards.
    ///
    /// The text check is the safety net the whole design leans on: a run is only
    /// kept when both files really do agree over its whole length. Codegen the
    /// builder guessed wrong about therefore produces *no* run rather than a
    /// wrong one, so a mis-guess costs coverage and never correctness.
    pub fn push(&mut self, source_text: &str, output_text: &str, run: Run) -> (r: bool)
        requires
            old(self).wf(),
        ensures
            final(self).wf(),
            r == (run.length > 0 && run.verbatim(source_text@, output_text@) && (old(
                self,
            )@.len() > 0 ==> old(self)@.last().end(Side::Source) <= run.source && old(
                self,
            )@.last().end(Side::Output) <= run.output)),
            final(self)@ == if r {
                old(self)@.push(run)
            } else {
                old(self)@
            },
            final(self).lost_count() == old(self).lost_count(),
            final(self).abandoned_for() == old(self).abandoned_for(),
            old(self).verbatim(source_text@, output_text@) ==> final(self).verbatim(
                source_text@,
                output_text@,
            ),
    {
        if run.length == 0 {
            return false;
        }
        let source_length: usize = length(source_text);
        let output_length: usize = length(output_text);
        if run.length > source_length || run.source > source_length - run.length {
            return false;
        }
        if run.length > output_length || run.output > output_length - run.length {
            return false;
        }
        let from = match get(source_text, run.source, run.source + run.length) {
            Some(from) => from,
            None => {
                return false;
            },
        };
        let to = match get(output_text, run.output, run.output + run.length) {
            Some(to) => to,
            None => {
                return false;
            },
        };
        if !same(from, to) {
            proof {
                if text::bytes(from@) == text::bytes(to@) {
                    text::lemma_bytes_injective(from@, to@);
                }
            }
            return false;
        }
        if self.runs.len() > 0 {
            let last = self.runs[self.runs.len() - 1];
            if run.source < last.source + last.length || run.output < last.output + last.length {
                return false;
            }
        }
        self.runs.push(run);
        true
    }

    /// `.luaux` offset → `.luau` offset.
    pub fn to_output(&self, offset: usize) -> (r: Option<usize>)
        requires
            self.wf(),
        ensures
            same_offset(r, mapped(self@, Side::Source, offset as int)),
    {
        match self.find(offset, Side::Source) {
            Some(run) => Some(run.output + (offset - run.source)),
            None => None,
        }
    }

    /// `.luau` offset → `.luaux` offset.
    pub fn to_source(&self, offset: usize) -> (r: Option<usize>)
        requires
            self.wf(),
        ensures
            same_offset(r, mapped(self@, Side::Output, offset as int)),
    {
        match self.find(offset, Side::Output) {
            Some(run) => Some(run.source + (offset - run.output)),
            None => None,
        }
    }

    /// End-exclusive variants, for the closing edge of a range.
    ///
    /// A range's end sits one past its last byte, which is outside the run when
    /// the run ends there. Treating that boundary as inside is right for an end
    /// and wrong for a start, so it is a separate call rather than a widening of
    /// the main one.
    pub fn to_output_end(&self, offset: usize) -> (r: Option<usize>)
        requires
            self.wf(),
        ensures
            same_offset(r, mapped_end(self@, Side::Source, offset as int)),
    {
        match self.find_end(offset, Side::Source) {
            Some(run) => Some(run.output + (offset - run.source)),
            None => None,
        }
    }

    pub fn to_source_end(&self, offset: usize) -> (r: Option<usize>)
        requires
            self.wf(),
        ensures
            same_offset(r, mapped_end(self@, Side::Output, offset as int)),
    {
        match self.find_end(offset, Side::Output) {
            Some(run) => Some(run.source + (offset - run.output)),
            None => None,
        }
    }

    /// Maps a whole range, requiring both edges to land in the *same* run.
    ///
    /// Two positions that map individually can still straddle generated text, and
    /// the range between them would then cover code the author never wrote.
    pub fn to_output_range(&self, start: usize, end: usize) -> (r: Option<(usize, usize)>)
        requires
            self.wf(),
        ensures
            same_range(r, mapped_range(self@, Side::Source, start as int, end as int)),
    {
        // An empty range is a caret, and a caret sitting just past a run is a
        // real position in it — `{count|}` is where completion happens.
        if start == end {
            let at: Option<usize> = match self.to_output(start) {
                Some(at) => Some(at),
                None => self.to_output_end(start),
            };
            return match at {
                Some(at) => Some((at, at)),
                None => None,
            };
        }
        match self.find(start, Side::Source) {
            Some(run) => if run.source <= end && end <= run.source + run.length {
                Some((run.output + (start - run.source), run.output + (end - run.source)))
            } else {
                None
            },
            None => None,
        }
    }

    pub fn to_source_range(&self, start: usize, end: usize) -> (r: Option<(usize, usize)>)
        requires
            self.wf(),
        ensures
            same_range(r, mapped_range(self@, Side::Output, start as int, end as int)),
    {
        if start == end {
            let at: Option<usize> = match self.to_source(start) {
                Some(at) => Some(at),
                None => self.to_source_end(start),
            };
            return match at {
                Some(at) => Some((at, at)),
                None => None,
            };
        }
        match self.find(start, Side::Output) {
            Some(run) => if run.output <= end && end <= run.output + run.length {
                Some((run.source + (start - run.output), run.source + (end - run.output)))
            } else {
                None
            },
            None => None,
        }
    }

    fn find(&self, offset: usize, side: Side) -> (r: Option<Run>)
        requires
            self.wf(),
        ensures
            r == holder(self@, side, offset as int),
            r matches Some(run) ==> self@.contains(run) && run.holds(side, offset as int)
                && run.source + run.length <= usize::MAX && run.output + run.length <= usize::MAX,
    {
        let count: usize = self.starting_before(offset, side, true);
        if count == 0 {
            return None;
        }
        let run = self.runs[count - 1];
        assert(self@[count - 1] == run);
        if offset < Self::start_of(&run, side) + run.length {
            proof {
                lemma_holder(self@, side, offset as int, count - 1);
            }
            Some(run)
        } else {
            None
        }
    }

    fn find_end(&self, offset: usize, side: Side) -> (r: Option<Run>)
        requires
            self.wf(),
        ensures
            r == closer(self@, side, offset as int),
            r matches Some(run) ==> self@.contains(run) && run.closes(side, offset as int)
                && run.source + run.length <= usize::MAX && run.output + run.length <= usize::MAX,
    {
        let count: usize = self.starting_before(offset, side, false);
        if count == 0 {
            return None;
        }
        let run = self.runs[count - 1];
        assert(self@[count - 1] == run);
        if offset <= Self::start_of(&run, side) + run.length {
            proof {
                lemma_closer(self@, side, offset as int, count - 1);
            }
            Some(run)
        } else {
            None
        }
    }

    fn start_of(run: &Run, side: Side) -> (r: usize)
        ensures
            r == run.start(side),
    {
        match side {
            Side::Source => run.source,
            Side::Output => run.output,
        }
    }

    /// How many runs start before `offset`, or, inclusively, no later than it.
    fn starting_before(&self, offset: usize, side: Side, inclusive: bool) -> (r: usize)
        requires
            self.wf(),
        ensures
            r <= self@.len(),
            forall|i: int|
                #![trigger self@[i]]
                0 <= i < self@.len() ==> (i < r <==> (self@[i].start(side) < offset || inclusive
                    && self@[i].start(side) == offset)),
    {
        let mut low: usize = 0;
        let mut high: usize = self.runs.len();
        while low < high
            invariant
                self.wf(),
                low <= high <= self@.len(),
                forall|i: int|
                    #![trigger self@[i]]
                    0 <= i < low ==> self@[i].start(side) < offset || inclusive && self@[i].start(
                        side,
                    ) == offset,
                forall|i: int|
                    #![trigger self@[i]]
                    high <= i < self@.len() ==> !(self@[i].start(side) < offset || inclusive
                        && self@[i].start(side) == offset),
            decreases high - low,
        {
            let middle: usize = low + (high - low) / 2;
            let start: usize = Self::start_of(&self.runs[middle], side);
            assert(self@[middle as int].start(side) == start);
            if start < offset || inclusive && start == offset {
                low = middle + 1;
            } else {
                high = middle;
            }
        }
        low
    }
}

impl Default for SourceMap {
    fn default() -> (r: Self)
        ensures
            r.wf(),
            r@ == Seq::<Run>::empty(),
            r.lost_count() == 0,
            r.abandoned_for() is None,
    {
        SourceMap::new()
    }
}

/// Whether an offset is the one a map promises.
pub open spec fn same_offset(offset: Option<usize>, promised: Option<int>) -> bool {
    match (offset, promised) {
        (Some(a), Some(b)) => a == b,
        (None, None) => true,
        _ => false,
    }
}

/// Whether a range is the one a map promises.
pub open spec fn same_range(range: Option<(usize, usize)>, promised: Option<(int, int)>) -> bool {
    match (range, promised) {
        (Some(a), Some(b)) => a.0 == b.0 && a.1 == b.1,
        (None, None) => true,
        _ => false,
    }
}

/// Runs do not overlap, so at most one holds an offset.
pub proof fn lemma_holder(runs: Seq<Run>, side: Side, offset: int, i: int)
    requires
        ordered(runs),
        0 <= i < runs.len(),
        runs[i].holds(side, offset),
    ensures
        holder(runs, side, offset) == Some(runs[i]),
{
    let j = choose|j: int| 0 <= j < runs.len() && (#[trigger] runs[j]).holds(side, offset);
    assert(i == j) by {
        assert(runs[i].holds(side, offset) && runs[j].holds(side, offset));
    }
}

pub proof fn lemma_closer(runs: Seq<Run>, side: Side, offset: int, i: int)
    requires
        ordered(runs),
        0 <= i < runs.len(),
        runs[i].closes(side, offset),
    ensures
        closer(runs, side, offset) == Some(runs[i]),
{
    let j = choose|j: int| 0 <= j < runs.len() && (#[trigger] runs[j]).closes(side, offset);
    assert(i == j) by {
        assert(runs[i].closes(side, offset) && runs[j].closes(side, offset));
    }
}

/// Every offset in a run goes to the other file and comes back where it was.
pub proof fn law_offsets_round_trip(map: SourceMap, side: Side, offset: int)
    requires
        map.wf(),
        mapped(map@, side, offset) is Some,
    ensures
        mapped(map@, side.other(), mapped(map@, side, offset)->Some_0) == Some(offset),
{
    law_runs_round_trip(map@, side, offset);
}

/// The same of runs alone.
pub proof fn law_runs_round_trip(runs: Seq<Run>, side: Side, offset: int)
    requires
        ordered(runs),
        mapped(runs, side, offset) is Some,
    ensures
        mapped(runs, side.other(), mapped(runs, side, offset)->Some_0) == Some(offset),
{
    let i = choose|i: int| 0 <= i < runs.len() && (#[trigger] runs[i]).holds(side, offset);
    lemma_holder(runs, side, offset, i);
    lemma_holder(runs, side.other(), runs[i].across(side, offset), i);
}

/// The same holds of the closing edge of a range.
pub proof fn law_ends_round_trip(map: SourceMap, side: Side, offset: int)
    requires
        map.wf(),
        mapped_end(map@, side, offset) is Some,
    ensures
        mapped_end(map@, side.other(), mapped_end(map@, side, offset)->Some_0) == Some(offset),
{
    let runs = map@;
    let i = choose|i: int| 0 <= i < runs.len() && (#[trigger] runs[i]).closes(side, offset);
    lemma_closer(runs, side, offset, i);
    lemma_closer(runs, side.other(), runs[i].across(side, offset), i);
}

/// A range that is no caret and runs forward comes back where it was too.
pub proof fn law_ranges_round_trip(map: SourceMap, side: Side, start: int, end: int)
    requires
        map.wf(),
        start < end,
        mapped_range(map@, side, start, end) is Some,
    ensures
        ({
            let (a, b) = mapped_range(map@, side, start, end)->Some_0;
            mapped_range(map@, side.other(), a, b) == Some((start, end))
        }),
{
    let runs = map@;
    let i = choose|i: int| 0 <= i < runs.len() && (#[trigger] runs[i]).holds(side, start);
    lemma_holder(runs, side, start, i);
    lemma_holder(runs, side.other(), runs[i].across(side, start), i);
}

/// A range that maps covers the same text in both files: nothing generated lies
/// between its edges.
pub proof fn law_mapped_ranges_are_verbatim(
    map: SourceMap,
    source: Seq<char>,
    output: Seq<char>,
    start: int,
    end: int,
)
    requires
        map.wf(),
        map.verbatim(source, output),
        start <= end,
        mapped_range(map@, Side::Source, start, end) is Some,
    ensures
        ({
            let (a, b) = mapped_range(map@, Side::Source, start, end)->Some_0;
            &&& 0 <= start <= end <= text::bytes(source).len()
            &&& 0 <= a <= b <= text::bytes(output).len()
            &&& text::bytes(source).subrange(start, end) == text::bytes(output).subrange(a, b)
        }),
{
    let runs = map@;
    let (a, b) = mapped_range(runs, Side::Source, start, end)->Some_0;
    let run = if holder(runs, Side::Source, start) is Some {
        holder(runs, Side::Source, start)->Some_0
    } else {
        closer(runs, Side::Source, start)->Some_0
    };
    let i = if holder(runs, Side::Source, start) is Some {
        choose|i: int| 0 <= i < runs.len() && (#[trigger] runs[i]).holds(Side::Source, start)
    } else {
        choose|i: int| 0 <= i < runs.len() && (#[trigger] runs[i]).closes(Side::Source, start)
    };
    assert(runs[i] == run);
    assert(run.verbatim(source, output));
    let x = text::bytes(source).subrange(run.source as int, run.end(Side::Source));
    let y = text::bytes(output).subrange(run.output as int, run.end(Side::Output));
    assert(text::bytes(source).subrange(start, end) =~= x.subrange(
        start - run.source,
        end - run.source,
    ));
    assert(text::bytes(output).subrange(a, b) =~= y.subrange(start - run.source, end - run.source));
}

} // verus!
