use vstd::prelude::*;

use crate::path::PathTilemap;
use crate::pathfinding::{search_outcome, PathFinder, PathResult};

verus! {

/// Why a request was refused.
#[derive(Debug, Clone, Copy, PartialEq, Eq, Structural)]
pub enum QueueError {
    /// A request with this identity is already pending or has a result waiting.
    DuplicateIdentity(u64),
}

/// Many path requests over one grid snapshot: pending requests are searched in submission
/// order, a bounded number per `advance`, and each result is kept under its request's
/// identity until it is taken.
pub struct PathFindingQueue {
    grid: PathTilemap,
    pending: Vec<(u64, PathFinder)>,
    results: Vec<(u64, PathFinder, PathResult)>,
}

impl PathFindingQueue {
    /// The grid the searches run on.
    pub closed spec fn grid(&self) -> Map<(int, int), crate::path::PathTile> {
        self.grid@
    }

    /// The requests not searched yet, in order.
    pub closed spec fn pending(&self) -> Seq<(u64, PathFinder)> {
        self.pending@
    }

    /// The results not taken yet, with their requests.
    pub closed spec fn results(&self) -> Seq<(u64, PathFinder, PathResult)> {
        self.results@
    }

    /// The identities the queue knows: those of the results, then those pending.
    pub open spec fn ids(&self) -> Seq<u64> {
        self.results().map_values(|t: (u64, PathFinder, PathResult)| t.0) + self.pending().map_values(
            |t: (u64, PathFinder)| t.0,
        )
    }

    pub open spec fn wf(&self) -> bool {
        &&& self.grid_wf()
        &&& self.pending().len() <= usize::MAX
        &&& self.ids().no_duplicates()
        &&& forall|i: int|
            0 <= i < self.results().len() ==> search_outcome(
                self.grid(),
                (#[trigger] self.results()[i]).1,
                self.results()[i].2,
            )
    }

    pub closed spec fn grid_wf(&self) -> bool {
        &&& self.grid.wf()
        &&& self.grid@.len() < u32::MAX
    }

    /// An empty queue over `grid`.
    pub fn new(grid: PathTilemap) -> (r: PathFindingQueue)
        requires
            grid.wf(),
            grid@.len() < u32::MAX,
        ensures
            r.wf(),
            r.grid() == grid@,
            r.pending().len() == 0,
            r.results().len() == 0,
    {
        let r = PathFindingQueue { grid, pending: Vec::new(), results: Vec::new() };
        assert(r.ids() =~= Seq::<u64>::empty());
        r
    }

    /// Whether `id` is pending or has a result waiting.
    pub fn contains(&self, id: u64) -> (r: bool)
        requires
            self.wf(),
        ensures
            r == self.ids().contains(id),
    {
        let mut i: usize = 0;
        while i < self.results.len()
            invariant
                i <= self.results@.len(),
                forall|j: int| 0 <= j < i ==> (#[trigger] self.results@[j]).0 != id,
            decreases self.results@.len() - i,
        {
            if self.results[i].0 == id {
                assert(self.ids()[i as int] == id);
                return true;
            }
            i += 1;
        }
        let mut i: usize = 0;
        while i < self.pending.len()
            invariant
                i <= self.pending@.len(),
                forall|j: int| 0 <= j < self.results@.len() ==> (#[trigger] self.results@[j]).0 != id,
                forall|j: int| 0 <= j < i ==> (#[trigger] self.pending@[j]).0 != id,
            decreases self.pending@.len() - i,
        {
            if self.pending[i].0 == id {
                assert(self.ids()[self.results@.len() + i] == id);
                return true;
            }
            i += 1;
        }
        assert forall|j: int| 0 <= j < self.ids().len() implies self.ids()[j] != id by {
            if j < self.results@.len() {
                assert(self.ids()[j] == self.results@[j].0);
            } else {
                assert(self.ids()[j] == self.pending@[j - self.results@.len()].0);
            }
        }
        false
    }

    /// Submits `request` under `id`; an identity the queue already knows is refused.
    pub fn add(&mut self, id: u64, request: PathFinder) -> (r: Result<(), QueueError>)
        requires
            old(self).wf(),
        ensures
            final(self).wf(),
            final(self).grid() == old(self).grid(),
            final(self).results() == old(self).results(),
            r is Err <==> old(self).ids().contains(id),
            r is Err ==> r == Err::<(), QueueError>(QueueError::DuplicateIdentity(id)) && final(self).pending()
                == old(self).pending(),
            r is Ok ==> final(self).pending() == old(self).pending().push((id, request)),
    {
        if self.contains(id) {
            return Err(QueueError::DuplicateIdentity(id));
        }
        let ghost old_ids = self.ids();
        self.pending.push((id, request));
        let count = self.pending.len();
        assert(self.pending().len() == count);
        assert(self.ids() =~= old_ids.push(id));
        Ok(())
    }

    /// A queue over `grid` holding `schedules` in order; refused at the first identity that
    /// repeats.
    pub fn new_with_schedules(grid: PathTilemap, schedules: Vec<(u64, PathFinder)>) -> (r: Result<
        PathFindingQueue,
        QueueError,
    >)
        requires
            grid.wf(),
            grid@.len() < u32::MAX,
        ensures
            r is Ok <==> schedules@.map_values(|t: (u64, PathFinder)| t.0).no_duplicates(),
            r matches Ok(q) ==> q.wf() && q.grid() == grid@ && q.pending() == schedules@ && q.results().len()
                == 0,
    {
        let mut q = PathFindingQueue::new(grid);
        let ghost g = grid@;
        let mut i: usize = 0;
        while i < schedules.len()
            invariant
                i <= schedules@.len(),
                q.wf(),
                q.grid() == g,
                q.results().len() == 0,
                q.pending() == schedules@.subrange(0, i as int),
                schedules@.subrange(0, i as int).map_values(|t: (u64, PathFinder)| t.0).no_duplicates(),
            decreases schedules@.len() - i,
        {
            let (id, req) = schedules[i];
            assert(q.ids() =~= schedules@.subrange(0, i as int).map_values(|t: (u64, PathFinder)| t.0));
            match q.add(id, req) {
                Ok(()) => {},
                Err(e) => {
                    proof {
                        let ids = schedules@.map_values(|t: (u64, PathFinder)| t.0);
                        let j = choose|j: int| 0 <= j < q.ids().len() && q.ids()[j] == id;
                        assert(ids[j] == id && ids[i as int] == id && j < i);
                    }
                    return Err(e);
                },
            }
            assert(schedules@.subrange(0, i + 1) =~= schedules@.subrange(0, i as int).push((id, req)));
            assert(schedules@.subrange(0, i + 1).map_values(|t: (u64, PathFinder)| t.0) =~= q.ids());
            i += 1;
        }
        assert(schedules@.subrange(0, i as int) =~= schedules@);
        Ok(q)
    }

    /// No request is left to search.
    pub fn is_empty(&self) -> (r: bool)
        ensures
            r == (self.pending().len() == 0),
    {
        self.pending.len() == 0
    }

    /// The number of results waiting to be taken.
    pub fn result_count(&self) -> (r: usize)
        ensures
            r == self.results().len(),
    {
        self.results.len()
    }

    /// Searches the first `budget` pending requests (all of them if fewer), each once and to
    /// its end, and keeps their results in the same order.
    pub fn advance(&mut self, budget: usize)
        requires
            old(self).wf(),
        ensures
            final(self).wf(),
            final(self).grid() == old(self).grid(),
            final(self).ids() == old(self).ids(),
            final(self).results().len() + final(self).pending().len() == old(self).results().len() + old(
                self,
            ).pending().len(),
            ({
                let k = if budget < old(self).pending().len() {
                    budget as int
                } else {
                    old(self).pending().len() as int
                };
                &&& final(self).pending() == old(self).pending().subrange(k, old(self).pending().len() as int)
                &&& final(self).results().len() == old(self).results().len() + k
                &&& final(self).results().subrange(0, old(self).results().len() as int) == old(self).results()
                &&& forall|j: int|
                    0 <= j < k ==> (#[trigger] final(self).results()[old(self).results().len() + j]).0 == old(
                        self,
                    ).pending()[j].0 && final(self).results()[old(self).results().len() + j].1 == old(
                        self,
                    ).pending()[j].1
            }),
    {
        let ghost k: int = if budget < self.pending@.len() {
            budget as int
        } else {
            self.pending@.len() as int
        };
        let ghost start = *self;
        let mut done: usize = 0;
        while done < budget && self.pending.len() > 0
            invariant
                self.wf(),
                self.grid() == start.grid(),
                self.ids() == start.ids(),
                done <= k,
                k == (if budget < start.pending().len() {
                    budget as int
                } else {
                    start.pending().len() as int
                }),
                self.pending() == start.pending().subrange(done as int, start.pending().len() as int),
                self.results().len() == start.results().len() + done,
                self.results().subrange(0, start.results().len() as int) == start.results(),
                forall|j: int|
                    0 <= j < done ==> (#[trigger] self.results()[start.results().len() + j]).0 == start.pending()[j].0
                        && self.results()[start.results().len() + j].1 == start.pending()[j].1,
            decreases budget - done,
        {
            let (id, req) = self.pending.remove(0);
            let r = req.find_path(&self.grid);
            let ghost before = self.results@;
            self.results.push((id, req, r));
            proof {
                assert(self.ids() =~= start.ids());
                assert(self.results().subrange(0, start.results().len() as int) =~= before.subrange(
                    0,
                    start.results().len() as int,
                ));
                assert(self.pending() =~= start.pending().subrange(done + 1, start.pending().len() as int));
                assert forall|i: int|
                    0 <= i < self.results().len() implies search_outcome(
                        self.grid(),
                        (#[trigger] self.results()[i]).1,
                        self.results()[i].2,
                    ) by {
                    if i < before.len() {
                        assert(self.results()[i] == before[i]);
                    }
                }
                assert forall|j: int|
                    0 <= j < done + 1 implies (#[trigger] self.results()[start.results().len() + j]).0
                        == start.pending()[j].0 && self.results()[start.results().len() + j].1
                        == start.pending()[j].1 by {
                    if j < done {
                        assert(self.results()[start.results().len() + j] == before[start.results().len() + j]);
                    }
                }
            }
            done += 1;
        }
    }

    /// Drops the pending request `id`, if there is one; it will not be searched.
    pub fn cancel(&mut self, id: u64) -> (r: bool)
        requires
            old(self).wf(),
        ensures
            final(self).wf(),
            final(self).grid() == old(self).grid(),
            final(self).results() == old(self).results(),
            r <==> exists|i: int| 0 <= i < old(self).pending().len() && (#[trigger] old(self).pending()[i]).0 == id,
            !r ==> final(self).pending() == old(self).pending(),
            r ==> exists|i: int|
                0 <= i < old(self).pending().len() && (#[trigger] old(self).pending()[i]).0 == id
                    && final(self).pending() == old(self).pending().remove(i),
    {
        let mut i: usize = 0;
        while i < self.pending.len()
            invariant
                i <= self.pending@.len(),
                self.wf(),
                self.grid() == old(self).grid(),
                self.pending() == old(self).pending(),
                self.results() == old(self).results(),
                forall|j: int| 0 <= j < i ==> (#[trigger] self.pending@[j]).0 != id,
            decreases self.pending@.len() - i,
        {
            if self.pending[i].0 == id {
                let ghost old_ids = self.ids();
                let ghost nr = self.results@.len();
                self.pending.remove(i);
                proof {
                    assert forall|a: int, b: int|
                        0 <= a < b < self.ids().len() implies self.ids()[a] != self.ids()[b] by {
                        let a2 = if a < nr + i { a } else { a + 1 };
                        let b2 = if b < nr + i { b } else { b + 1 };
                        assert(self.ids()[a] == old_ids[a2]);
                        assert(self.ids()[b] == old_ids[b2]);
                    }
                }
                return true;
            }
            i += 1;
        }
        false
    }

    /// Takes the result kept under `id`, if any; it is removed, so it can be taken once.
    pub fn take_result(&mut self, id: u64) -> (r: Option<PathResult>)
        requires
            old(self).wf(),
        ensures
            final(self).wf(),
            final(self).grid() == old(self).grid(),
            final(self).pending() == old(self).pending(),
            r is Some <==> exists|i: int| 0 <= i < old(self).results().len() && (#[trigger] old(self).results()[i]).0 == id,
            r is None ==> final(self).results() == old(self).results(),
            r matches Some(res) ==> exists|i: int|
                0 <= i < old(self).results().len() && (#[trigger] old(self).results()[i]).0 == id
                    && old(self).results()[i].2 == res && search_outcome(
                    old(self).grid(),
                    old(self).results()[i].1,
                    res,
                ) && final(self).results() == old(self).results().remove(i),
    {
        let mut i: usize = 0;
        while i < self.results.len()
            invariant
                i <= self.results@.len(),
                self.wf(),
                self.grid() == old(self).grid(),
                self.pending() == old(self).pending(),
                self.results() == old(self).results(),
                forall|j: int| 0 <= j < i ==> (#[trigger] self.results@[j]).0 != id,
            decreases self.results@.len() - i,
        {
            if self.results[i].0 == id {
                let ghost old_ids = self.ids();
                let ghost old_results = self.results@;
                let (_, _, r) = self.results.remove(i);
                proof {
                    assert(self.results() == old_results.remove(i as int));
                    assert(old_ids[i as int] == id);
                    assert forall|a: int, b: int|
                        0 <= a < b < self.ids().len() implies self.ids()[a] != self.ids()[b] by {
                        let a2 = if a < i { a } else { a + 1 };
                        let b2 = if b < i { b } else { b + 1 };
                        assert(self.ids()[a] == old_ids[a2]);
                        assert(self.ids()[b] == old_ids[b2]);
                    }
                    assert forall|j: int|
                        0 <= j < self.results().len() implies search_outcome(
                            self.grid(),
                            (#[trigger] self.results()[j]).1,
                            self.results()[j].2,
                        ) by {
                        let j2 = if j < i { j } else { j + 1 };
                        assert(self.results()[j] == old_results[j2]);
                    }
                }
                return Some(r);
            }
            i += 1;
        }
        None
    }
}

/// Once no request is pending, every identity the queue knows has exactly one result waiting:
/// there are as many results as identities, and identities do not repeat.
pub proof fn lemma_empty_queue_holds_every_result(q: &PathFindingQueue)
    requires
        q.wf(),
        q.pending().len() == 0,
    ensures
        q.results().len() == q.ids().len(),
        forall|id: u64|
            q.ids().contains(id) ==> exists|i: int| 0 <= i < q.results().len() && (#[trigger] q.results()[i]).0 == id,
{
    assert forall|id: u64| q.ids().contains(id) implies exists|i: int|
        0 <= i < q.results().len() && (#[trigger] q.results()[i]).0 == id by {
        let j = choose|j: int| 0 <= j < q.ids().len() && q.ids()[j] == id;
        assert(q.results()[j].0 == id);
    }
}

} // verus!
