//! The expectation ledger: for each logical path, the lines written to it
//! and not yet reported back, oldest first.
//!
//! Queues are keyed by path alone. A rotation keeps the key, so the lines
//! written before and after it share one queue: the pipeline under test is
//! expected to report by path, not by file identity. A deletion leaves the
//! queue as it is: lines written before the file was removed stay pending
//! when the path is created again, and a pipeline that lost them is caught
//! by the next report for that path.
use vstd::prelude::*;
use crate::codec::{Line, LineView, Payload};

verus! {

/// The ledger as a total map: a path with no queue has the empty queue.
pub type LedgerModel = Map<Seq<char>, Seq<Seq<char>>>;

/// A report that the ledger does not back.
pub enum Violation {
    /// A line reported for a path with no line pending.
    UnexpectedDelivery { path: String, got: String },
    /// A line reported that differs from the oldest line pending for its path.
    OrderingOrContentViolation { path: String, expected: String, got: String },
}

/// The pending lines of one path.
struct PathQueue {
    path: String,
    values: Vec<String>,
}

impl PathQueue {
    spec fn values_view(&self) -> Seq<Seq<char>> {
        self.values@.map_values(|s: String| s@)
    }
}

/// The per-path expectation queues.
pub struct Ledger {
    queues: Vec<PathQueue>,
}

/// The model of a ledger in which nothing is pending.
pub open spec fn empty_model() -> LedgerModel {
    Map::new(|p: Seq<char>| true, |p: Seq<char>| Seq::<Seq<char>>::empty())
}

/// The model after `v` is written to `p`.
pub open spec fn recorded(m: LedgerModel, p: Seq<char>, v: Seq<char>) -> LedgerModel {
    m.insert(p, m[p].push(v))
}

/// The model after `vs` are written to `p`, in order.
pub open spec fn recorded_all(m: LedgerModel, p: Seq<char>, vs: Seq<Seq<char>>) -> LedgerModel
    decreases vs.len(),
{
    if vs.len() == 0 {
        m
    } else {
        recorded(recorded_all(m, p, vs.drop_last()), p, vs.last())
    }
}

/// Whether a report of `v` for `p` matches the oldest pending line of `p`.
pub open spec fn verify_ok(m: LedgerModel, p: Seq<char>, v: Seq<char>) -> bool {
    m[p].len() > 0 && m[p][0] == v
}

/// The model after a report for `p`: its oldest pending line, if any, is gone.
pub open spec fn after_verify(m: LedgerModel, p: Seq<char>) -> LedgerModel {
    if m[p].len() == 0 {
        m
    } else {
        m.insert(p, m[p].drop_first())
    }
}

/// The violation that a report of `v` for `p` raises against `m`.
pub open spec fn is_violation_for(m: LedgerModel, p: Seq<char>, v: Seq<char>, e: Violation) -> bool {
    if m[p].len() == 0 {
        e matches Violation::UnexpectedDelivery { path, got } && path@ == p && got@ == v
    } else {
        e matches Violation::OrderingOrContentViolation { path, expected, got } && path@ == p
            && expected@ == m[p][0] && got@ == v
    }
}

/// `r` with its index moved on by `k`.
pub open spec fn shifted(r: Option<nat>, k: nat) -> Option<nat> {
    match r {
        Some(i) => Some(i + k),
        None => None,
    }
}

/// Checks reported lines in order against `m`, stopping at the first that
/// fails: the model afterwards, and the index of the failing line if any.
pub open spec fn run_lines(m: LedgerModel, ls: Seq<LineView>) -> (LedgerModel, Option<nat>)
    decreases ls.len(),
{
    if ls.len() == 0 {
        (m, None)
    } else if verify_ok(m, ls[0].0, ls[0].1) {
        let (m2, r) = run_lines(after_verify(m, ls[0].0), ls.drop_first());
        (m2, shifted(r, 1))
    } else {
        (after_verify(m, ls[0].0), Some(0))
    }
}

impl Ledger {
    /// No two queues share a path.
    pub closed spec fn wf(&self) -> bool {
        forall|i: int, j: int|
            0 <= i < self.queues@.len() && 0 <= j < self.queues@.len() && i != j
                ==> self.queues@[i].path@ != self.queues@[j].path@
    }

    /// The lines pending for path `p`, oldest first.
    pub closed spec fn pending(&self, p: Seq<char>) -> Seq<Seq<char>> {
        if exists|i: int| 0 <= i < self.queues@.len() && self.queues@[i].path@ == p {
            let i = choose|i: int| 0 <= i < self.queues@.len() && self.queues@[i].path@ == p;
            self.queues@[i].values_view()
        } else {
            Seq::empty()
        }
    }

    pub open spec fn view(&self) -> LedgerModel {
        Map::new(|p: Seq<char>| true, |p: Seq<char>| self.pending(p))
    }

    proof fn lemma_pending_at(&self, i: int)
        requires
            self.wf(),
            0 <= i < self.queues@.len(),
        ensures
            self.pending(self.queues@[i].path@) == self.queues@[i].values_view(),
    {
        let p = self.queues@[i].path@;
        let j = choose|j: int| 0 <= j < self.queues@.len() && self.queues@[j].path@ == p;
        assert(j == i);
    }

    pub fn new() -> (r: Ledger)
        ensures
            r.wf(),
            r@ == empty_model(),
    {
        let r = Ledger { queues: Vec::new() };
        assert(r@ =~= empty_model());
        r
    }

    /// Where the queue of `path` stands, if it has one.
    fn find(&self, path: &String) -> (r: Option<usize>)
        ensures
            r matches Some(i) ==> i < self.queues@.len() && self.queues@[i as int].path@ == path@,
            r is None ==> forall|i: int|
                0 <= i < self.queues@.len() ==> self.queues@[i].path@ != path@,
    {
        let mut i: usize = 0;
        while i < self.queues.len()
            invariant
                i <= self.queues@.len(),
                forall|k: int| 0 <= k < i ==> self.queues@[k].path@ != path@,
            decreases self.queues@.len() - i,
        {
            if self.queues[i].path == *path {
                return Some(i);
            }
            i += 1;
        }
        None
    }

    /// The number of lines pending for `path`.
    pub fn pending_len(&self, path: &String) -> (r: usize)
        requires
            self.wf(),
        ensures
            r == self@[path@].len(),
    {
        match self.find(path) {
            Some(i) => {
                proof {
                    self.lemma_pending_at(i as int);
                }
                self.queues[i].values.len()
            },
            None => 0,
        }
    }

    /// Appends `value` to the queue of `path`, creating the queue if absent.
    pub fn record(&mut self, path: &String, value: String)
        requires
            old(self).wf(),
        ensures
            final(self).wf(),
            final(self)@ == recorded(old(self)@, path@, value@),
    {
        let ghost m0 = self@;
        match self.find(path) {
            Some(i) => {
                proof {
                    self.lemma_pending_at(i as int);
                }
                let ghost old_queues = self.queues@;
                let mut q = self.queues.remove(i);
                let ghost qv = q.values_view();
                q.values.push(value);
                assert(q.values_view() =~= qv.push(value@));
                self.queues.insert(i, q);
                assert(self.queues@ =~= old_queues.update(i as int, q));
                assert forall|p: Seq<char>| #[trigger] self.pending(p) == recorded(m0, path@, value@)[p] by {
                    if p == path@ {
                        self.lemma_pending_at(i as int);
                    } else {
                        assert(forall|k: int| 0 <= k < self.queues@.len() ==> (self.queues@[k].path@ == p
                            <==> old_queues[k].path@ == p));
                        if exists|k: int| 0 <= k < self.queues@.len() && self.queues@[k].path@ == p {
                            let k = choose|k: int| 0 <= k < self.queues@.len() && self.queues@[k].path@ == p;
                            self.lemma_pending_at(k);
                            assert(old_queues[k].path@ == p);
                            assert(k != i);
                        }
                    }
                }
            },
            None => {
                let ghost old_queues = self.queues@;
                let mut values: Vec<String> = Vec::new();
                values.push(value);
                let q = PathQueue { path: path.clone(), values };
                assert(q.values_view() =~= seq![value@]);
                self.queues.push(q);
                assert(m0[path@] =~= Seq::<Seq<char>>::empty());
                assert forall|p: Seq<char>| #[trigger] self.pending(p) == recorded(m0, path@, value@)[p] by {
                    let n = old_queues.len() as int;
                    if p == path@ {
                        self.lemma_pending_at(n);
                    } else if exists|k: int| 0 <= k < self.queues@.len() && self.queues@[k].path@ == p {
                        let k = choose|k: int| 0 <= k < self.queues@.len() && self.queues@[k].path@ == p;
                        self.lemma_pending_at(k);
                        assert(k != n);
                        assert(old_queues[k] == self.queues@[k]);
                        old(self).lemma_pending_at(k);
                    } else {
                        assert forall|k: int| 0 <= k < old_queues.len() implies old_queues[k].path@ != p by {
                            assert(self.queues@[k] == old_queues[k]);
                        }
                    }
                }
            },
        }
        assert(self@ =~= recorded(m0, path@, value@));
    }

    /// Pops the oldest pending line of `path` and compares it with `value`.
    /// Fails with `UnexpectedDelivery` when nothing is pending for `path`,
    /// and with `OrderingOrContentViolation` when the oldest line differs.
    pub fn verify(&mut self, path: &String, value: String) -> (r: Result<(), Violation>)
        requires
            old(self).wf(),
        ensures
            final(self).wf(),
            final(self)@ == after_verify(old(self)@, path@),
            r is Ok <==> verify_ok(old(self)@, path@, value@),
            r matches Err(e) ==> is_violation_for(old(self)@, path@, value@, e),
    {
        let ghost m0 = self@;
        match self.find(path) {
            Some(i) => {
                proof {
                    self.lemma_pending_at(i as int);
                }
                if self.queues[i].values.len() == 0 {
                    assert(self@ =~= after_verify(m0, path@));
                    return Err(Violation::UnexpectedDelivery { path: path.clone(), got: value });
                }
                let ghost old_queues = self.queues@;
                let mut q = self.queues.remove(i);
                let ghost qv = q.values_view();
                let head = q.values.remove(0);
                assert(q.values_view() =~= qv.drop_first());
                self.queues.insert(i, q);
                assert(self.queues@ =~= old_queues.update(i as int, q));
                assert forall|p: Seq<char>| #[trigger] self.pending(p) == after_verify(m0, path@)[p] by {
                    if p == path@ {
                        self.lemma_pending_at(i as int);
                    } else {
                        assert(forall|k: int| 0 <= k < self.queues@.len() ==> (self.queues@[k].path@ == p
                            <==> old_queues[k].path@ == p));
                        if exists|k: int| 0 <= k < self.queues@.len() && self.queues@[k].path@ == p {
                            let k = choose|k: int| 0 <= k < self.queues@.len() && self.queues@[k].path@ == p;
                            self.lemma_pending_at(k);
                            old(self).lemma_pending_at(k);
                            assert(k != i);
                        }
                    }
                }
                assert(self@ =~= after_verify(m0, path@));
                if head == value {
                    Ok(())
                } else {
                    Err(Violation::OrderingOrContentViolation { path: path.clone(), expected: head, got: value })
                }
            },
            None => {
                assert(m0[path@] =~= Seq::<Seq<char>>::empty());
                assert(self@ =~= after_verify(m0, path@));
                Err(Violation::UnexpectedDelivery { path: path.clone(), got: value })
            },
        }
    }

    /// Checks the lines of a payload in arrival order, stopping at the first
    /// violation, which comes back with the index of its line.
    pub fn verify_payload(&mut self, payload: &Payload) -> (r: Result<(), (usize, Violation)>)
        requires
            old(self).wf(),
        ensures
            final(self).wf(),
            final(self)@ == run_lines(old(self)@, payload@).0,
            r is Ok <==> run_lines(old(self)@, payload@).1 is None,
            r matches Err((i, e)) ==> {
                &&& run_lines(old(self)@, payload@).1 == Some(i as nat)
                &&& i < payload@.len()
                &&& is_violation_for(
                    run_lines(old(self)@, payload@.take(i as int)).0,
                    payload@[i as int].0,
                    payload@[i as int].1,
                    e,
                )
            },
    {
        let ghost m0 = self@;
        let ghost ls = payload@;
        let n = payload.lines.len();
        let mut i: usize = 0;
        assert(ls.skip(0) =~= ls);
        assert(ls.take(0) =~= Seq::<LineView>::empty());
        proof {
            match run_lines(m0, ls).1 {
                Some(k) => {},
                None => {},
            }
        }
        while i < n
            invariant
                self.wf(),
                i <= n,
                n == ls.len(),
                ls == payload@,
                m0 == old(self)@,
                run_lines(m0, ls).0 == run_lines(self@, ls.skip(i as int)).0,
                run_lines(m0, ls).1 == shifted(run_lines(self@, ls.skip(i as int)).1, i as nat),
                run_lines(m0, ls.take(i as int)) == (self@, Option::<nat>::None),
            decreases n - i,
        {
            let ghost rest = ls.skip(i as int);
            let ghost m = self@;
            let line = &payload.lines[i];
            assert(line@ == rest[0]);
            let r = self.verify(&line.path, line.value.clone());
            assert(rest.drop_first() =~= ls.skip(i + 1));
            proof {
                lemma_run_lines_extend(m0, ls, i as nat);
            }
            match r {
                Ok(()) => {
                    proof {
                        match run_lines(self@, ls.skip(i + 1)).1 {
                            Some(k) => {},
                            None => {},
                        }
                    }
                    i += 1;
                },
                Err(e) => {
                    assert(run_lines(m, rest) == (after_verify(m, rest[0].0), Some(0nat)));
                    return Err((i, e));
                },
            }
        }
        assert(ls.skip(i as int) =~= Seq::<LineView>::empty());
        Ok(())
    }
}

/// Checking one more line after a run of successes is one step of the run.
proof fn lemma_run_lines_extend(m: LedgerModel, ls: Seq<LineView>, i: nat)
    requires
        i < ls.len(),
    ensures
        run_lines(m, ls.take(i as int)).1 is None ==> {
            let mi = run_lines(m, ls.take(i as int)).0;
            run_lines(m, ls.take(i + 1 as int)) == if verify_ok(mi, ls[i as int].0, ls[i as int].1) {
                (after_verify(mi, ls[i as int].0), Option::<nat>::None)
            } else {
                (after_verify(mi, ls[i as int].0), Some(i))
            }
        },
    decreases i,
{
    if i > 0 {
        lemma_run_lines_extend(after_verify(m, ls[0].0), ls.drop_first(), (i - 1) as nat);
        assert(ls.take(i as int).drop_first() =~= ls.drop_first().take(i - 1));
        assert(ls.take(i + 1 as int).drop_first() =~= ls.drop_first().take(i as int));
    }
    assert(ls.take(i + 1 as int)[0] == ls[0]);
    reveal_with_fuel(run_lines, 2);
}

/// The reports of `vs` for path `p`, in order.
pub open spec fn reports_for(p: Seq<char>, vs: Seq<Seq<char>>) -> Seq<LineView> {
    vs.map_values(|v: Seq<char>| (p, v))
}

proof fn lemma_recorded_all(m: LedgerModel, p: Seq<char>, vs: Seq<Seq<char>>)
    requires
        m.dom().contains(p),
    ensures
        recorded_all(m, p, vs) == m.insert(p, m[p] + vs),
    decreases vs.len(),
{
    if vs.len() == 0 {
        assert(m[p] + vs =~= m[p]);
        assert(m.insert(p, m[p]) =~= m);
    } else {
        lemma_recorded_all(m, p, vs.drop_last());
        assert((m[p] + vs.drop_last()).push(vs.last()) =~= m[p] + vs);
        assert(recorded_all(m, p, vs) =~= m.insert(p, m[p] + vs));
    }
}

proof fn lemma_pending_reports_pass(m: LedgerModel, p: Seq<char>, vs: Seq<Seq<char>>)
    requires
        m.dom().contains(p),
        m[p] == vs,
    ensures
        run_lines(m, reports_for(p, vs)) == (m.insert(p, Seq::<Seq<char>>::empty()), Option::<nat>::None),
    decreases vs.len(),
{
    let ls = reports_for(p, vs);
    if vs.len() == 0 {
        assert(vs =~= Seq::<Seq<char>>::empty());
        assert(m.insert(p, Seq::<Seq<char>>::empty()) =~= m);
    } else {
        let m1 = after_verify(m, p);
        assert(verify_ok(m, ls[0].0, ls[0].1));
        lemma_pending_reports_pass(m1, p, vs.drop_first());
        assert(ls.drop_first() =~= reports_for(p, vs.drop_first()));
        assert(m1.insert(p, Seq::<Seq<char>>::empty()) =~= m.insert(p, Seq::<Seq<char>>::empty()));
    }
}

/// Lines written to one path whose queue was empty, then reported for that
/// path in the order they were written, all pass, and leave the ledger as
/// it was before the writes.
pub proof fn lemma_in_order_reports_pass(l: &Ledger, p: Seq<char>, vs: Seq<Seq<char>>)
    requires
        l@[p].len() == 0,
    ensures
        run_lines(recorded_all(l@, p, vs), reports_for(p, vs)) == (l@, Option::<nat>::None),
{
    let m = l@;
    lemma_recorded_all(m, p, vs);
    let mr = recorded_all(m, p, vs);
    assert(m[p] + vs =~= vs);
    lemma_pending_reports_pass(mr, p, vs);
    assert(m[p] =~= Seq::<Seq<char>>::empty());
    assert(mr.insert(p, Seq::<Seq<char>>::empty()) =~= m);
}

/// Two different lines written to one path whose queue was empty, then
/// reported in the opposite order: both reports fail, and each as a
/// content mismatch (a line was pending), not as an unexpected delivery.
pub proof fn lemma_out_of_order_reports_fail(l: &Ledger, p: Seq<char>, v1: Seq<char>, v2: Seq<char>)
    requires
        l@[p].len() == 0,
        v1 != v2,
    ensures
        ({
            let m = recorded(recorded(l@, p, v1), p, v2);
            &&& m[p].len() > 0
            &&& !verify_ok(m, p, v2)
            &&& after_verify(m, p)[p].len() > 0
            &&& !verify_ok(after_verify(m, p), p, v1)
        }),
{
    let m = recorded(recorded(l@, p, v1), p, v2);
    assert(m[p] =~= seq![v1, v2]);
    assert(after_verify(m, p)[p] =~= seq![v2]);
}

} // verus!
