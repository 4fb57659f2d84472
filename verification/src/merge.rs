//! The k-way chronological merge: the earliest head entry wins, ties
//! broken by source index, and — when every source is sorted — the
//! merged stream is non-decreasing.

use vstd::prelude::*;

use crate::lines::{EntryErr, LineRep, LogLineIterator};
use crate::model::{AnalysisError, LogLine};
use crate::times::Timestamp;

verus! {

/// Whether head `a` (at source index `ai`) is merged before head `b`:
/// an exhausted source never wins; otherwise earlier timestamp first,
/// ties by lower source index.
pub open spec fn head_before(a: Option<Timestamp>, ai: int, b: Option<Timestamp>, bi: int) -> bool {
    match (a, b) {
        (Some(_), None) => true,
        (None, _) => false,
        (Some(x), Some(y)) => x.spec_lt(y) || (x == y && ai < bi),
    }
}

/// The source index the merge pops next, scanning from `i` with
/// `best` the strongest candidate so far (-1 for none).
pub open spec fn pick_from(heads: Seq<Option<Timestamp>>, i: int, best: int) -> int
    decreases heads.len() - i,
{
    if i < 0 || i >= heads.len() {
        best
    } else {
        let cand = if best < 0 {
            if heads[i] is Some {
                i
            } else {
                best
            }
        } else if head_before(heads[i], i, heads[best], best) {
            i
        } else {
            best
        };
        pick_from(heads, i + 1, cand)
    }
}

/// The source index whose head the merge pops next, or -1 when every
/// source is exhausted.
pub open spec fn pick(heads: Seq<Option<Timestamp>>) -> int {
    pick_from(heads, 0, -1)
}

/// The heads of the per-source remainders.
pub open spec fn heads_of<T>(srcs: Seq<Seq<(Timestamp, T)>>) -> Seq<Option<Timestamp>> {
    Seq::new(
        srcs.len(),
        |i: int|
            if srcs[i].len() > 0 {
                Some(srcs[i][0].0)
            } else {
                None
            },
    )
}

pub open spec fn total_rem<T>(srcs: Seq<Seq<(Timestamp, T)>>, i: int) -> int
    decreases i,
{
    if i <= 0 {
        0
    } else {
        total_rem(srcs, i - 1) + srcs[i - 1].len()
    }
}

/// The merged stream: repeatedly pop the picked source's head.
pub open spec fn merge_seq<T>(srcs: Seq<Seq<(Timestamp, T)>>) -> Seq<(Timestamp, T)>
    decreases total_rem(srcs, srcs.len() as int),
    via merge_seq_dec::<T>
{
    let p = pick(heads_of(srcs));
    if p < 0 || p >= srcs.len() {
        Seq::empty()
    } else {
        seq![srcs[p][0]] + merge_seq(srcs.update(p, srcs[p].skip(1)))
    }
}

proof fn lemma_pick_in_range(heads: Seq<Option<Timestamp>>, i: int, best: int)
    requires
        best == -1 || (0 <= best < heads.len() && heads[best] is Some),
        0 <= i,
    ensures
        pick_from(heads, i, best) == -1 || (0 <= pick_from(heads, i, best) < heads.len()
            && heads[pick_from(heads, i, best)] is Some),
    decreases heads.len() - i,
{
    if i < heads.len() {
        let cand = if best < 0 {
            if heads[i] is Some {
                i
            } else {
                best
            }
        } else if head_before(heads[i], i, heads[best], best) {
            i
        } else {
            best
        };
        lemma_pick_in_range(heads, i + 1, cand);
    }
}

proof fn lemma_total_rem_nonneg<T>(srcs: Seq<Seq<(Timestamp, T)>>, i: int)
    ensures
        total_rem(srcs, i) >= 0,
    decreases i,
{
    if i > 0 {
        lemma_total_rem_nonneg(srcs, i - 1);
    }
}

proof fn lemma_total_rem_update<T>(srcs: Seq<Seq<(Timestamp, T)>>, p: int, i: int)
    requires
        0 <= p < srcs.len(),
        srcs[p].len() > 0,
        i <= srcs.len(),
    ensures
        total_rem(srcs.update(p, srcs[p].skip(1)), i) == if i <= p {
            total_rem(srcs, i)
        } else {
            total_rem(srcs, i) - 1
        },
    decreases i,
{
    if i > 0 {
        lemma_total_rem_update(srcs, p, i - 1);
        if i - 1 == p {
            assert(srcs.update(p, srcs[p].skip(1))[p] == srcs[p].skip(1));
        } else {
            assert(srcs.update(p, srcs[p].skip(1))[i - 1] == srcs[i - 1]);
        }
    }
}

#[via_fn]
proof fn merge_seq_dec<T>(srcs: Seq<Seq<(Timestamp, T)>>) {
    let p = pick(heads_of(srcs));
    if 0 <= p < srcs.len() {
        lemma_pick_in_range(heads_of(srcs), 0, -1);
        lemma_total_rem_update(srcs, p, srcs.len() as int);
        lemma_total_rem_nonneg(srcs.update(p, srcs[p].skip(1)), srcs.len() as int);
        lemma_total_rem_nonneg(srcs, srcs.len() as int);
    }
}

/// The picked head is no later than every live head.
proof fn lemma_pick_min(heads: Seq<Option<Timestamp>>, i: int, best: int, j: int)
    requires
        best == -1 || (0 <= best < heads.len() && heads[best] is Some),
        0 <= i,
        0 <= j < heads.len(),
        heads[j] is Some,
        j < i ==> (best >= 0 && !head_before(heads[j], j, heads[best], best)),
    ensures
        pick_from(heads, i, best) >= 0,
        !head_before(
            heads[j],
            j,
            heads[pick_from(heads, i, best)],
            pick_from(heads, i, best),
        ) || j == pick_from(heads, i, best),
    decreases heads.len() - i,
{
    lemma_pick_in_range(heads, i, best);
    if i < heads.len() {
        let cand = if best < 0 {
            if heads[i] is Some {
                i
            } else {
                best
            }
        } else if head_before(heads[i], i, heads[best], best) {
            i
        } else {
            best
        };
        lemma_pick_min(heads, i + 1, cand, j);
    }
}

/// `pick` lands on a live source (public face of the range lemma).
pub proof fn lemma_pick_in_range_pub(heads: Seq<Option<Timestamp>>)
    ensures
        pick(heads) == -1 || (0 <= pick(heads) < heads.len() && heads[pick(heads)] is Some),
{
    lemma_pick_in_range(heads, 0, -1);
}

/// Popping a live head shrinks the total remainder by one.
pub proof fn lemma_total_rem_pub<T>(srcs: Seq<Seq<(Timestamp, T)>>, p: int)
    requires
        0 <= p < srcs.len(),
        srcs[p].len() > 0,
    ensures
        total_rem(srcs.update(p, srcs[p].skip(1)), srcs.len() as int) == total_rem(
            srcs,
            srcs.len() as int,
        ) - 1,
        total_rem(srcs, srcs.len() as int) >= 0,
        total_rem(srcs.update(p, srcs[p].skip(1)), srcs.len() as int) >= 0,
{
    lemma_total_rem_update(srcs, p, srcs.len() as int);
    lemma_total_rem_nonneg(srcs, srcs.len() as int);
    lemma_total_rem_nonneg(srcs.update(p, srcs[p].skip(1)), srcs.len() as int);
}

/// A sequence of timestamps is non-decreasing.
pub open spec fn ts_sorted(s: Seq<Timestamp>) -> bool {
    forall|i: int, j: int| 0 <= i <= j < s.len() ==> (#[trigger] s[i]).spec_le(#[trigger] s[j])
}

/// The timestamps of merged entries.
pub open spec fn ts_of<T>(s: Seq<(Timestamp, T)>) -> Seq<Timestamp> {
    s.map_values(|e: (Timestamp, T)| e.0)
}

/// Chronological merge order: when every source is sorted by
/// timestamp, the merged stream's timestamps are non-decreasing.
pub proof fn lemma_merge_sorted<T>(srcs: Seq<Seq<(Timestamp, T)>>)
    requires
        forall|i: int| 0 <= i < srcs.len() ==> ts_sorted(ts_of(#[trigger] srcs[i])),
    ensures
        ts_sorted(ts_of(merge_seq(srcs))),
        forall|i: int, k: int|
            0 <= i < srcs.len() && 0 <= k < srcs[i].len() && merge_seq(srcs).len() > 0 ==> merge_seq(
                srcs,
            )[0].0.spec_le(#[trigger] srcs[i][k].0),
    decreases total_rem(srcs, srcs.len() as int),
{
    let heads = heads_of(srcs);
    let p = pick(heads);
    if 0 <= p < srcs.len() {
        lemma_pick_in_range(heads, 0, -1);
        lemma_total_rem_nonneg(srcs, srcs.len() as int);
        lemma_total_rem_update(srcs, p, srcs.len() as int);
        let srcs2 = srcs.update(p, srcs[p].skip(1));
        lemma_total_rem_nonneg(srcs2, srcs.len() as int);
        assert forall|i: int| 0 <= i < srcs2.len() implies ts_sorted(ts_of(#[trigger] srcs2[i])) by {
            if i == p {
                let a = ts_of(srcs[p]);
                let b = ts_of(srcs2[p]);
                assert(forall|k: int| 0 <= k < b.len() ==> b[k] == a[k + 1]);
            }
        }
        lemma_merge_sorted(srcs2);
        let out = merge_seq(srcs);
        let rest = merge_seq(srcs2);
        let t0 = srcs[p][0].0;
        assert forall|i: int, k: int|
            0 <= i < srcs.len() && 0 <= k < srcs[i].len() && out.len() > 0 implies out[0].0.spec_le(
            #[trigger] srcs[i][k].0,
        ) by {
            lemma_pick_min(heads, 0, -1, i);
            assert(t0.spec_le(srcs[i][0].0));
            assert(ts_of(srcs[i])[0] == srcs[i][0].0);
            assert(ts_of(srcs[i])[k] == srcs[i][k].0);
            assert(srcs[i][0].0.spec_le(srcs[i][k].0));
        }
        assert forall|a: int, b: int|
            0 <= a <= b < ts_of(out).len() implies ts_of(out)[a].spec_le(ts_of(out)[b]) by {
            if a == 0 {
                if b > 0 {
                    if rest.len() > 0 {
                        let q = pick(heads_of(srcs2));
                        lemma_pick_in_range(heads_of(srcs2), 0, -1);
                        assert(rest[0] == srcs2[q][0]);
                        if q == p {
                            assert(srcs2[q][0] == srcs[p][1]);
                            assert(ts_of(srcs[p])[0].spec_le(ts_of(srcs[p])[1]));
                            assert(t0.spec_le(srcs2[q][0].0));
                        } else {
                            assert(srcs2[q][0] == srcs[q][0]);
                            lemma_pick_min(heads, 0, -1, q);
                            assert(t0.spec_le(srcs2[q][0].0));
                        }
                        assert(ts_of(rest)[b - 1] == ts_of(out)[b]);
                        assert(ts_of(rest)[0].spec_le(ts_of(rest)[b - 1]));
                    }
                }
            } else {
                assert(ts_of(rest)[a - 1] == ts_of(out)[a]);
                assert(ts_of(rest)[b - 1] == ts_of(out)[b]);
            }
        }
    }
}


/// One source's pending entries — its head, then the parse successes
/// behind it — are non-decreasing in timestamp.
pub open spec fn src_sorted(h: Option<LineRep>, rem: Seq<Result<LineRep, EntryErr>>) -> bool {
    &&& (h matches Some(l) ==> (rem.len() > 0 && rem[0] is Ok ==> l.timestamp.spec_le(
        rem[0]->Ok_0.timestamp,
    )))
    &&& forall|a: int, b: int|
        0 <= a < b < rem.len() && (#[trigger] rem[a]) is Ok && (#[trigger] rem[b]) is Ok
            ==> rem[a]->Ok_0.timestamp.spec_le(rem[b]->Ok_0.timestamp)
}

/// Every source of the stream is sorted (the per-source monotonicity
/// the inputs are assumed to have).
pub open spec fn stream_sorted(
    heads: Seq<Option<LineRep>>,
    rems: Seq<Seq<Result<LineRep, EntryErr>>>,
) -> bool {
    &&& heads.len() == rems.len()
    &&& forall|i: int| 0 <= i < heads.len() ==> src_sorted(#[trigger] heads[i], rems[i])
}

/// A freshly built stream over sorted entry lists is sorted: the head
/// is the first entry and the remainder follows it.
pub proof fn lemma_src_sorted_initial(entries: Seq<Result<LineRep, EntryErr>>)
    requires
        forall|a: int, b: int|
            0 <= a < b < entries.len() && (#[trigger] entries[a]) is Ok && (
            #[trigger] entries[b]) is Ok ==> entries[a]->Ok_0.timestamp.spec_le(
                entries[b]->Ok_0.timestamp,
            ),
    ensures
        entries.len() == 0 ==> src_sorted(None, entries),
        entries.len() > 0 && entries[0] is Ok ==> src_sorted(
            Some(entries[0]->Ok_0),
            entries.skip(1),
        ),
{
    if entries.len() > 0 && entries[0] is Ok {
        let rem = entries.skip(1);
        assert(forall|a: int| 0 <= a < rem.len() ==> (#[trigger] rem[a]) == entries[a + 1]);
    }
}

/// Chronological order at the stream's own steps: when every source
/// is sorted, the popped head is no later than every head of the
/// state after the step, and the state stays sorted — so over a run
/// the lines handed out are non-decreasing in timestamp.
pub proof fn lemma_stream_step_monotone(
    heads: Seq<Option<LineRep>>,
    rems: Seq<Seq<Result<LineRep, EntryErr>>>,
    heads2: Seq<Option<LineRep>>,
    rems2: Seq<Seq<Result<LineRep, EntryErr>>>,
)
    requires
        stream_sorted(heads, rems),
        pick(line_head_ts(heads)) >= 0,
        heads2 == ({
            let p = pick(line_head_ts(heads));
            let rem = rems[p];
            if rem.len() == 0 {
                heads.update(p, None)
            } else if rem[0] is Ok {
                heads.update(p, Some(rem[0]->Ok_0))
            } else {
                heads.update(p, None)
            }
        }),
        rems2 == ({
            let p = pick(line_head_ts(heads));
            let rem = rems[p];
            if rem.len() == 0 {
                rems
            } else {
                rems.update(p, rem.skip(1))
            }
        }),
    ensures
        ({
            let p = pick(line_head_ts(heads));
            let popped = heads[p]->Some_0;
            &&& 0 <= p < heads.len() && heads[p] is Some
            &&& forall|i: int|
                0 <= i < heads2.len() && (#[trigger] heads2[i]) is Some ==> popped.timestamp.spec_le(
                    heads2[i]->Some_0.timestamp,
                )
            &&& stream_sorted(heads2, rems2)
        }),
{
    let hts = line_head_ts(heads);
    lemma_pick_in_range(hts, 0, -1);
    let p = pick(hts);
    let popped = heads[p]->Some_0;
    let rem = rems[p];
    assert forall|i: int|
        0 <= i < heads2.len() && (#[trigger] heads2[i]) is Some implies popped.timestamp.spec_le(
        heads2[i]->Some_0.timestamp,
    ) by {
        if i == p {
            assert(src_sorted(heads[p], rems[p]));
        } else {
            assert(heads2[i] == heads[i]);
            assert(hts[i] is Some);
            lemma_pick_min(hts, 0, -1, i);
            assert(!head_before(hts[i], i, hts[p], p) || i == p);
        }
    }
    assert forall|i: int|
        0 <= i < heads2.len() implies src_sorted(#[trigger] heads2[i], rems2[i]) by {
        if i == p {
            if rem.len() > 0 {
                assert(src_sorted(heads[p], rems[p]));
                let rem2 = rem.skip(1);
                assert(forall|a: int|
                    0 <= a < rem2.len() ==> (#[trigger] rem2[a]) == rem[a + 1]);
                if rem[0] is Ok && rem2.len() > 0 && rem2[0] is Ok {
                    assert(rem[0]->Ok_0.timestamp.spec_le(rem[1]->Ok_0.timestamp));
                }
            }
        } else {
            assert(heads2[i] == heads[i] && rems2[i] == rems[i]);
            assert(src_sorted(heads[i], rems[i]));
        }
    }
}

/// Picks the source whose head goes out next (`pick`).
pub fn pick_exec(heads: &Vec<Option<Timestamp>>) -> (r: Option<usize>)
    ensures
        match r {
            Some(p) => pick(heads@) == p as int && p < heads@.len(),
            None => pick(heads@) == -1,
        },
{
    let n = heads.len();
    let mut best: Option<usize> = None;
    let mut i: usize = 0;
    while i < n
        invariant
            i <= n,
            n == heads@.len(),
            match best {
                Some(b) => b < n && heads@[b as int] is Some && pick(heads@) == pick_from(
                    heads@,
                    i as int,
                    b as int,
                ),
                None => pick(heads@) == pick_from(heads@, i as int, -1),
            },
        decreases n - i,
    {
        match &best {
            None => {
                if heads[i].is_some() {
                    best = Some(i);
                }
            },
            Some(b) => {
                let bi = *b;
                match (&heads[i], &heads[bi]) {
                    (Some(h), Some(bh)) => {
                        if h.lt(bh) || (h.secs == bh.secs && h.nanos == bh.nanos && i < bi) {
                            best = Some(i);
                        }
                    },
                    _ => {
                    },
                }
            },
        }
        i = i + 1;
    }
    best
}

/// The timestamps of optional line heads.
pub open spec fn line_head_ts(heads: Seq<Option<LineRep>>) -> Seq<Option<Timestamp>> {
    heads.map_values(
        |h: Option<LineRep>| match h {
            Some(l) => Some(l.timestamp),
            None => None,
        },
    )
}

/// Merges several per-source line streams chronologically: the
/// earliest head goes out first, ties broken by source index; popping
/// refills the head from the same source, and a refill error is
/// surfaced in place of the next entry (that source then stays
/// silent).
pub struct MergedLogStream {
    iterators: Vec<LogLineIterator>,
    heads: Vec<Option<LogLine>>,
}

impl MergedLogStream {
    /// The current head entry of each source.
    pub closed spec fn heads_view(&self) -> Seq<Option<LineRep>> {
        self.heads@.map_values(
            |h: Option<LogLine>| match h {
                Some(l) => Some(l@),
                None => None,
            },
        )
    }

    /// The entries behind each head.
    pub closed spec fn rems(&self) -> Seq<Seq<Result<LineRep, EntryErr>>> {
        Seq::new(self.iterators@.len(), |i: int| self.iterators@[i].remaining())
    }

    pub closed spec fn wf(&self) -> bool {
        &&& self.heads@.len() == self.iterators@.len()
        &&& forall|i: int| 0 <= i < self.iterators@.len() ==> (#[trigger] self.iterators@[i]).wf()
    }

    /// Builds the merged stream by pulling one head per source; a
    /// source whose first entry fails to parse aborts construction
    /// with that error.
    pub fn new(iterators: Vec<LogLineIterator>) -> (r: Result<MergedLogStream, AnalysisError>)
        requires
            forall|i: int| 0 <= i < iterators@.len() ==> (#[trigger] iterators@[i]).wf(),
        ensures
            r is Ok <==> (forall|i: int|
                0 <= i < iterators@.len() ==> ((#[trigger] iterators@[i]).remaining().len() == 0
                    || iterators@[i].remaining()[0] is Ok)),
            r matches Ok(s) ==> {
                &&& s.wf()
                &&& s.heads_view().len() == iterators@.len()
                &&& s.rems().len() == iterators@.len()
                &&& forall|i: int|
                    0 <= i < iterators@.len() ==> {
                        let rem = (#[trigger] iterators@[i]).remaining();
                        if rem.len() == 0 {
                            s.heads_view()[i] is None && s.rems()[i] == rem
                        } else {
                            s.heads_view()[i] == Some(rem[0]->Ok_0) && s.rems()[i] == rem.skip(1)
                        }
                    }
            },
            r matches Err(e) ==> exists|i: int|
                {
                    &&& 0 <= i < iterators@.len()
                    &&& (#[trigger] iterators@[i]).remaining().len() > 0
                    &&& iterators@[i].remaining()[0] is Err
                    &&& forall|j: int|
                        0 <= j < i ==> ((#[trigger] iterators@[j]).remaining().len() == 0
                            || iterators@[j].remaining()[0] is Ok)
                    &&& crate::lines::result_matches(
                        Err::<LogLine, AnalysisError>(e),
                        iterators@[i].remaining()[0],
                    )
                },
    {
        let ghost iv0 = iterators@;
        let mut its = iterators;
        let n = its.len();
        let mut heads: Vec<Option<LogLine>> = Vec::new();
        let mut i: usize = 0;
        while i < n
            invariant
                i <= n,
                n == its@.len(),
                heads@.len() == i,
                iv0.len() == n,
                iv0 == iterators@,
                forall|k: int| 0 <= k < n ==> (#[trigger] its@[k]).wf(),
                forall|k: int| i <= k < n ==> #[trigger] its@[k] == iv0[k],
                forall|k: int|
                    0 <= k < i ==> ((#[trigger] iv0[k]).remaining().len() == 0 || iv0[k].remaining()[0] is Ok),
                forall|k: int|
                    0 <= k < i ==> {
                        let rem = (#[trigger] iv0[k]).remaining();
                        if rem.len() == 0 {
                            heads@[k] is None && its@[k].remaining() == rem
                        } else {
                            heads@[k] matches Some(l) && l@ == rem[0]->Ok_0 && its@[
                                k].remaining() == rem.skip(1)
                        }
                    },
            decreases n - i,
        {
            let mut it = its.remove(i);
            let pulled = it.next();
            its.insert(i, it);
            match pulled {
                Some(Ok(line)) => {
                    heads.push(Some(line));
                },
                Some(Err(e)) => {
                    proof {
                        assert(iv0[i as int].remaining().len() > 0);
                        assert(!(iv0[i as int].remaining()[0] is Ok));
                        assert(!(forall|k: int|
                            0 <= k < iv0.len() ==> ((#[trigger] iv0[k]).remaining().len() == 0
                                || iv0[k].remaining()[0] is Ok)));
                        assert(crate::lines::result_matches(
                            Err::<LogLine, AnalysisError>(e),
                            iv0[i as int].remaining()[0],
                        ));
                    }
                    return Err(e);
                },
                None => {
                    heads.push(None);
                },
            }
            i = i + 1;
        }
        let s = MergedLogStream { iterators: its, heads };
        Ok(s)
    }

    /// Pops the earliest head (ties to the lower source index),
    /// refills that source, and hands the popped line out; a refill
    /// error is handed out instead, and `None` means every source is
    /// exhausted.
    pub fn next(&mut self) -> (r: Option<Result<LogLine, AnalysisError>>)
        requires
            old(self).wf(),
        ensures
            final(self).wf(),
            final(self).heads_view().len() == old(self).heads_view().len(),
            final(self).rems().len() == old(self).rems().len(),
            pick(line_head_ts(old(self).heads_view())) < 0 ==> r is None && final(self).heads_view()
                == old(self).heads_view() && final(self).rems() == old(self).rems(),
            pick(line_head_ts(old(self).heads_view())) >= 0 ==> {
                let p = pick(line_head_ts(old(self).heads_view()));
                let rem = old(self).rems()[p];
                &&& final(self).rems() == old(self).rems().update(
                    p,
                    if rem.len() == 0 {
                        rem
                    } else {
                        rem.skip(1)
                    },
                )
                &&& (if rem.len() == 0 {
                    r matches Some(e) && e matches Ok(l) && Some(l@) == old(self).heads_view()[p]
                        && final(self).heads_view() == old(self).heads_view().update(
                        p,
                        None::<LineRep>,
                    )
                } else if rem[0] is Ok {
                    r matches Some(e) && e matches Ok(l) && Some(l@) == old(self).heads_view()[p]
                        && final(self).heads_view() == old(self).heads_view().update(
                        p,
                        Some(rem[0]->Ok_0),
                    )
                } else {
                    r matches Some(e) && e is Err && crate::lines::result_matches(
                        match e {
                            Ok(l) => Ok(l),
                            Err(err) => Err(err),
                        },
                        rem[0],
                    ) && final(self).heads_view() == old(self).heads_view().update(
                        p,
                        None::<LineRep>,
                    )
                })
            },
    {
        let n = self.heads.len();
        let mut ts_heads: Vec<Option<Timestamp>> = Vec::new();
        let mut i: usize = 0;
        while i < n
            invariant
                i <= n,
                n == self.heads@.len(),
                ts_heads@.len() == i,
                forall|k: int|
                    0 <= k < i ==> #[trigger] ts_heads@[k] == line_head_ts(self.heads_view())[k],
            decreases n - i,
        {
            let t = match &self.heads[i] {
                Some(l) => Some(l.timestamp),
                None => None,
            };
            ts_heads.push(t);
            i = i + 1;
        }
        proof {
            assert(ts_heads@ =~= line_head_ts(self.heads_view()));
        }
        let p = match pick_exec(&ts_heads) {
            Some(p) => p,
            None => {
                return None;
            },
        };
        let popped = match &self.heads[p] {
            Some(l) => l.clone_line(),
            None => {
                proof {
                    lemma_pick_in_range(ts_heads@, 0, -1);
                }
                return None;
            },
        };
        let ghost heads0 = self.heads_view();
        let ghost rems0 = self.rems();
        let mut it = self.iterators.remove(p);
        let pulled = it.next();
        self.iterators.insert(p, it);
        proof {
            assert(self.iterators@.len() == rems0.len());
        }
        match pulled {
            Some(Ok(line)) => {
                self.heads.set(p, Some(line));
                proof {
                    assert(self.heads_view() =~= heads0.update(
                        p as int,
                        Some(rems0[p as int][0]->Ok_0),
                    ));
                    assert(self.rems() =~= rems0.update(p as int, rems0[p as int].skip(1)));
                }
                Some(Ok(popped))
            },
            Some(Err(e)) => {
                self.heads.set(p, None);
                proof {
                    assert(self.heads_view() =~= heads0.update(p as int, None::<LineRep>));
                    assert(self.rems() =~= rems0.update(p as int, rems0[p as int].skip(1)));
                }
                Some(Err(e))
            },
            None => {
                self.heads.set(p, None);
                proof {
                    assert(self.heads_view() =~= heads0.update(p as int, None::<LineRep>));
                    assert(self.rems() =~= rems0.update(p as int, rems0[p as int]));
                }
                Some(Ok(popped))
            },
        }
    }
}

} // verus!

