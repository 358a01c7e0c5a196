//! Moving the clips of a recording to their new names.
//!
//! Two indexes tell which clip goes where: the clip of record `i` of the old
//! index takes the name of record `i` of the new one. The library decides
//! which names are paired, what is done about each pair, and what a failure
//! means for the rest of the batch. Touching the files is the caller's part.
use crate::error::KcdError;
use crate::hdr::{decode, BlockView, KCDVideoHDR, VideoBlock};
use crate::mode::{action_for, FileAction, Mode};
use crate::text::{file_name, lemma_after_last, offset_after_last, push_from, BACKSLASH};
use vstd::prelude::*;

verus! {

/// One clip of a batch: the name it has and the name it gets.
#[derive(Debug, Clone, PartialEq, Eq)]
pub struct Relocation {
    pub from: Vec<u8>,
    pub to: Vec<u8>,
}

/// The pairs of a batch, in the order of the records, and how they are to be moved.
#[derive(Debug, Clone, PartialEq, Eq)]
pub struct RelocationPlan {
    pub mode: Mode,
    pub pairs: Vec<Relocation>,
}

impl View for Relocation {
    type V = (Seq<u8>, Seq<u8>);

    open spec fn view(&self) -> (Seq<u8>, Seq<u8>) {
        (self.from@, self.to@)
    }
}

/// The pairs of a vector as mathematical values.
pub open spec fn pair_views(pairs: Seq<Relocation>) -> Seq<(Seq<u8>, Seq<u8>)> {
    Seq::new(pairs.len(), |i: int| pairs[i]@)
}

/// The names of a vector as mathematical values.
pub open spec fn name_views(names: Seq<Vec<u8>>) -> Seq<Seq<u8>> {
    Seq::new(names.len(), |i: int| names[i]@)
}

/// The file name of every record, in the order of the records.
pub open spec fn clip_names(blocks: Seq<BlockView>) -> Seq<Seq<u8>> {
    Seq::new(blocks.len(), |i: int| file_name(blocks[i].path))
}

/// The names of two indexes paired by position. What the longer index has beyond the
/// shorter one is left out.
pub open spec fn paired(old: Seq<BlockView>, new: Seq<BlockView>) -> Seq<(Seq<u8>, Seq<u8>)> {
    Seq::new(
        if old.len() <= new.len() {
            old.len()
        } else {
            new.len()
        },
        |i: int| (file_name(old[i].path), file_name(new[i].path)),
    )
}

/// The pairs that the bytes of two indexes give.
pub open spec fn planned(src_hdr: Seq<u8>, dst_hdr: Seq<u8>) -> Result<
    Seq<(Seq<u8>, Seq<u8>)>,
    KcdError,
> {
    match decode(src_hdr) {
        Err(e) => Err(e),
        Ok(old) => match decode(dst_hdr) {
            Err(e) => Err(e),
            Ok(new) => Ok(paired(old.blocks, new.blocks)),
        },
    }
}

impl VideoBlock {
    /// The clip's file name: what follows the last backslash of its path.
    pub fn file_name(&self) -> (name: Vec<u8>)
        ensures
            name@ == file_name(self@.path),
    {
        let start = offset_after_last(self.filepath.as_slice(), BACKSLASH);
        proof {
            lemma_after_last(self.filepath@, BACKSLASH);
        }
        let mut name: Vec<u8> = Vec::new();
        push_from(&mut name, self.filepath.as_slice(), start);
        name
    }
}

/// The file names of the clips of an index.
pub fn video_names(index: &KCDVideoHDR) -> (names: Vec<Vec<u8>>)
    ensures
        name_views(names@) == clip_names(index@.blocks),
{
    let mut names: Vec<Vec<u8>> = Vec::new();
    let mut i: usize = 0;
    while i < index.data.len()
        invariant
            i <= index.data@.len(),
            names@.len() == i,
            forall|k: int| 0 <= k < i ==> (#[trigger] names@[k])@ == file_name(index.data@[k]@.path),
        decreases index.data@.len() - i,
    {
        names.push(index.data[i].file_name());
        i = i + 1;
    }
    assert(name_views(names@) =~= clip_names(index@.blocks));
    names
}

/// The clips of two indexes paired by position.
pub fn pair_videos(old: &KCDVideoHDR, new: &KCDVideoHDR) -> (pairs: Vec<Relocation>)
    ensures
        pair_views(pairs@) == paired(old@.blocks, new@.blocks),
{
    let n = if old.data.len() <= new.data.len() {
        old.data.len()
    } else {
        new.data.len()
    };
    let mut pairs: Vec<Relocation> = Vec::new();
    let mut i: usize = 0;
    while i < n
        invariant
            i <= n,
            n <= old.data@.len(),
            n <= new.data@.len(),
            pairs@.len() == i,
            forall|k: int|
                0 <= k < i ==> (#[trigger] pairs@[k])@ == (
                    file_name(old.data@[k]@.path),
                    file_name(new.data@[k]@.path),
                ),
        decreases n - i,
    {
        pairs.push(Relocation { from: old.data[i].file_name(), to: new.data[i].file_name() });
        i = i + 1;
    }
    assert(pair_views(pairs@) =~= paired(old@.blocks, new@.blocks));
    pairs
}

/// Plans the batch that takes the clips of the index `src_hdr` to the names of the index
/// `dst_hdr`.
pub fn move_videos(src_hdr: &[u8], dst_hdr: &[u8], mode: Mode) -> (r: Result<
    RelocationPlan,
    KcdError,
>)
    ensures
        match planned(src_hdr@, dst_hdr@) {
            Ok(pairs) => r is Ok && r->Ok_0.mode == mode && pair_views(r->Ok_0.pairs@) == pairs,
            Err(e) => r == Err::<RelocationPlan, KcdError>(e),
        },
{
    let old = match KCDVideoHDR::from_bytes(src_hdr) {
        Ok(index) => index,
        Err(e) => {
            return Err(e);
        },
    };
    let new = match KCDVideoHDR::from_bytes(dst_hdr) {
        Ok(index) => index,
        Err(e) => {
            return Err(e);
        },
    };
    Ok(RelocationPlan { mode, pairs: pair_videos(&old, &new) })
}

/// What a failed pair means for the pairs behind it.
#[derive(Debug, Copy, Clone, PartialEq, Eq, Structural)]
pub enum FailurePolicy {
    /// The first failure ends the batch.
    Strict,
    /// Every pair is tried, and the failures are gathered.
    BestEffort,
}

/// How far a batch has come: the outcome of every pair tried so far.
#[derive(Debug, Clone, PartialEq, Eq)]
pub struct BatchProgress {
    policy: FailurePolicy,
    total: usize,
    outcomes: Vec<bool>,
}

/// Some pair has failed.
pub open spec fn any_failed(outcomes: Seq<bool>) -> bool {
    exists|i: int| 0 <= i < outcomes.len() && !outcomes[i]
}

/// The indexes of the pairs that failed, in ascending order.
pub open spec fn failed_pairs(outcomes: Seq<bool>) -> Seq<usize>
    decreases outcomes.len(),
{
    if outcomes.len() == 0 {
        Seq::empty()
    } else if outcomes.last() {
        failed_pairs(outcomes.drop_last())
    } else {
        failed_pairs(outcomes.drop_last()).push((outcomes.len() - 1) as usize)
    }
}

/// The pair that is to be tried next, if the batch goes on.
pub open spec fn pending(policy: FailurePolicy, total: nat, outcomes: Seq<bool>) -> Option<nat> {
    if outcomes.len() >= total || (policy == FailurePolicy::Strict && any_failed(outcomes)) {
        None
    } else {
        Some(outcomes.len())
    }
}

impl BatchProgress {
    /// The policy under which the batch runs.
    pub closed spec fn policy(&self) -> FailurePolicy {
        self.policy
    }

    /// The number of pairs in the batch.
    pub closed spec fn total(&self) -> nat {
        self.total as nat
    }

    /// The outcome of every pair tried so far, in order: `true` for success.
    pub closed spec fn outcomes(&self) -> Seq<bool> {
        self.outcomes@
    }

    /// No more pairs are tried than the batch has, and under the strict policy none is
    /// tried behind a failure.
    pub open spec fn wf(&self) -> bool {
        &&& self.outcomes().len() <= self.total()
        &&& self.policy() == FailurePolicy::Strict ==> forall|i: int|
            0 <= i < self.outcomes().len() - 1 ==> self.outcomes()[i]
    }

    /// A batch of `total` pairs of which none is tried yet.
    pub fn new(policy: FailurePolicy, total: usize) -> (progress: BatchProgress)
        ensures
            progress.wf(),
            progress.policy() == policy,
            progress.total() == total,
            progress.outcomes() == Seq::<bool>::empty(),
    {
        BatchProgress { policy, total, outcomes: Vec::new() }
    }

    /// The index of the pair to try next; `None` once the batch is over.
    pub fn next_pair(&self) -> (next: Option<usize>)
        requires
            self.wf(),
        ensures
            match pending(self.policy(), self.total(), self.outcomes()) {
                Some(i) => next == Some(i as usize),
                None => next is None,
            },
    {
        let n = self.outcomes.len();
        if n >= self.total {
            return None;
        }
        if n > 0 && !self.outcomes[n - 1] {
            match self.policy {
                FailurePolicy::Strict => {
                    return None;
                },
                FailurePolicy::BestEffort => {},
            }
        }
        proof {
            if self.policy == FailurePolicy::Strict {
                assert(!any_failed(self.outcomes@));
            }
        }
        Some(n)
    }

    /// Takes note of how the pending pair went. Where no pair is pending, nothing changes.
    pub fn record(&mut self, succeeded: bool)
        requires
            old(self).wf(),
        ensures
            final(self).wf(),
            final(self).policy() == old(self).policy(),
            final(self).total() == old(self).total(),
            final(self).outcomes() == match pending(
                old(self).policy(),
                old(self).total(),
                old(self).outcomes(),
            ) {
                Some(_) => old(self).outcomes().push(succeeded),
                None => old(self).outcomes(),
            },
    {
        if self.next_pair().is_some() {
            proof {
                if self.policy == FailurePolicy::Strict {
                    assert forall|i: int| 0 <= i < self.outcomes@.len() implies self.outcomes@[i] by {
                        if !self.outcomes@[i] {
                            assert(any_failed(self.outcomes@));
                        }
                    }
                }
            }
            self.outcomes.push(succeeded);
        }
    }

    /// The indexes of the pairs that failed so far, in ascending order.
    pub fn failures(&self) -> (failed: Vec<usize>)
        requires
            self.wf(),
        ensures
            failed@ == failed_pairs(self.outcomes()),
    {
        let mut failed: Vec<usize> = Vec::new();
        let mut i: usize = 0;
        assert(self.outcomes@.take(0) =~= Seq::<bool>::empty());
        while i < self.outcomes.len()
            invariant
                i <= self.outcomes@.len(),
                failed@ == failed_pairs(self.outcomes@.take(i as int)),
            decreases self.outcomes@.len() - i,
        {
            assert(self.outcomes@.take(i + 1).drop_last() =~= self.outcomes@.take(i as int));
            if !self.outcomes[i] {
                failed.push(i);
            }
            i = i + 1;
        }
        assert(self.outcomes@.take(self.outcomes@.len() as int) =~= self.outcomes@);
        failed
    }

    /// How the batch went: well, or with the failures listed.
    pub fn result(&self) -> (r: Result<(), Vec<usize>>)
        requires
            self.wf(),
        ensures
            match r {
                Ok(()) => failed_pairs(self.outcomes()).len() == 0,
                Err(failed) => failed@ == failed_pairs(self.outcomes()) && failed@.len() > 0,
            },
    {
        let failed = self.failures();
        if failed.len() == 0 {
            Ok(())
        } else {
            Err(failed)
        }
    }
}

/// Under the best-effort policy a batch is over only when every pair has been tried, each
/// of them once.
pub proof fn lemma_best_effort_tries_all(progress: BatchProgress)
    requires
        progress.wf(),
        progress.policy() == FailurePolicy::BestEffort,
        pending(progress.policy(), progress.total(), progress.outcomes()) is None,
    ensures
        progress.outcomes().len() == progress.total(),
{
}

/// Under the strict policy a batch has one failure at most, and it is the pair tried last.
pub proof fn lemma_strict_stops_at_failure(progress: BatchProgress)
    requires
        progress.wf(),
        progress.policy() == FailurePolicy::Strict,
    ensures
        failed_pairs(progress.outcomes()) == if any_failed(progress.outcomes()) {
            seq![(progress.outcomes().len() - 1) as usize]
        } else {
            Seq::<usize>::empty()
        },
{
    let outcomes = progress.outcomes();
    if outcomes.len() > 0 {
        lemma_no_failure(outcomes.drop_last());
        if outcomes.last() {
            assert forall|i: int| 0 <= i < outcomes.len() implies outcomes[i] by {}
        } else {
            assert(!outcomes[outcomes.len() - 1]);
            assert(failed_pairs(outcomes) =~= seq![(outcomes.len() - 1) as usize]);
        }
    }
}

/// Where every pair went well, none is listed as failed.
pub proof fn lemma_no_failure(outcomes: Seq<bool>)
    requires
        forall|i: int| 0 <= i < outcomes.len() ==> outcomes[i],
    ensures
        failed_pairs(outcomes) == Seq::<usize>::empty(),
    decreases outcomes.len(),
{
    if outcomes.len() > 0 {
        lemma_no_failure(outcomes.drop_last());
    }
}

/// The files that stand after one action, in a model of the file tree that gives each
/// path that exists what it holds. An action whose source is missing changes nothing.
pub open spec fn after_action(
    files: Map<Seq<u8>, Seq<u8>>,
    action: FileAction,
    from: Seq<u8>,
    to: Seq<u8>,
) -> Map<Seq<u8>, Seq<u8>> {
    if !files.dom().contains(from) {
        files
    } else {
        match action {
            FileAction::Skip => files,
            FileAction::Copy => files.insert(to, files[from]),
            FileAction::Rename => files.remove(from).insert(to, files[from]),
        }
    }
}

/// The files that stand after one pair of a batch has been dealt with.
pub open spec fn after_pair(files: Map<Seq<u8>, Seq<u8>>, mode: Mode, pair: (Seq<u8>, Seq<u8>)) -> Map<
    Seq<u8>,
    Seq<u8>,
> {
    after_action(files, action_for(mode, files.dom().contains(pair.1)), pair.0, pair.1)
}

/// The files that stand after a batch, its pairs dealt with in order.
pub open spec fn after_batch(
    files: Map<Seq<u8>, Seq<u8>>,
    mode: Mode,
    pairs: Seq<(Seq<u8>, Seq<u8>)>,
) -> Map<Seq<u8>, Seq<u8>>
    decreases pairs.len(),
{
    if pairs.len() == 0 {
        files
    } else {
        after_pair(after_batch(files, mode, pairs.drop_last()), mode, pairs.last())
    }
}

/// No two pairs touch the same path: all sources and destinations differ from each other.
pub open spec fn independent(pairs: Seq<(Seq<u8>, Seq<u8>)>) -> bool {
    &&& forall|i: int, j: int|
        0 <= i < pairs.len() && 0 <= j < pairs.len() ==> (#[trigger] pairs[i]).0 != (
        #[trigger] pairs[j]).1
    &&& forall|i: int, j: int|
        0 <= i < j < pairs.len() ==> (#[trigger] pairs[i]).0 != (#[trigger] pairs[j]).0
            && pairs[i].1 != pairs[j].1
}

/// After a batch of moves, each pair has its destination in place or its source missing.
pub proof fn lemma_move_settles(files: Map<Seq<u8>, Seq<u8>>, pairs: Seq<(Seq<u8>, Seq<u8>)>, i: int)
    requires
        independent(pairs),
        0 <= i < pairs.len(),
    ensures
        after_batch(files, Mode::Move, pairs).dom().contains(pairs[i].1) || !after_batch(
            files,
            Mode::Move,
            pairs,
        ).dom().contains(pairs[i].0),
    decreases pairs.len(),
{
    let front = pairs.drop_last();
    let last = pairs.last();
    if i < pairs.len() - 1 {
        assert(independent(front)) by {
            assert forall|a: int, b: int| 0 <= a < front.len() && 0 <= b < front.len() implies (
            #[trigger] front[a]).0 != (#[trigger] front[b]).1 by {
                assert(front[a] == pairs[a] && front[b] == pairs[b]);
            }
            assert forall|a: int, b: int| 0 <= a < b < front.len() implies (#[trigger] front[a]).0
                != (#[trigger] front[b]).0 && front[a].1 != front[b].1 by {
                assert(front[a] == pairs[a] && front[b] == pairs[b]);
            }
        }
        lemma_move_settles(files, front, i);
        assert(front[i] == pairs[i]);
        assert(pairs[i].0 != last.0 && pairs[i].0 != last.1);
        assert(pairs[i].1 != last.0 && pairs[i].1 != last.1);
    }
}

/// A batch of moves changes nothing where each pair has its destination in place or its
/// source missing.
pub proof fn lemma_settled_moves_rest(files: Map<Seq<u8>, Seq<u8>>, pairs: Seq<(Seq<u8>, Seq<u8>)>)
    requires
        forall|i: int|
            0 <= i < pairs.len() ==> files.dom().contains((#[trigger] pairs[i]).1)
                || !files.dom().contains(pairs[i].0),
    ensures
        after_batch(files, Mode::Move, pairs) == files,
    decreases pairs.len(),
{
    if pairs.len() > 0 {
        let front = pairs.drop_last();
        assert forall|i: int| 0 <= i < front.len() implies files.dom().contains(
            (#[trigger] front[i]).1,
        ) || !files.dom().contains(front[i].0) by {
            assert(front[i] == pairs[i]);
        }
        lemma_settled_moves_rest(files, front);
        assert(pairs.last() == pairs[pairs.len() - 1]);
    }
}

/// Moving a batch a second time leaves the files as the first time left them, where no
/// two pairs of the batch touch the same path.
pub proof fn lemma_move_twice(files: Map<Seq<u8>, Seq<u8>>, pairs: Seq<(Seq<u8>, Seq<u8>)>)
    requires
        independent(pairs),
    ensures
        after_batch(after_batch(files, Mode::Move, pairs), Mode::Move, pairs) == after_batch(
            files,
            Mode::Move,
            pairs,
        ),
{
    let once = after_batch(files, Mode::Move, pairs);
    assert forall|i: int| 0 <= i < pairs.len() implies once.dom().contains((#[trigger] pairs[i]).1)
        || !once.dom().contains(pairs[i].0) by {
        lemma_move_settles(files, pairs, i);
    }
    lemma_settled_moves_rest(once, pairs);
}

} // verus!
